//! The evaluator: a single post-order walk of the expression tree.  For
//! dice-free trees the result — value or error — is pinned exactly by
//! [`eval_spec`]; every dice roll appends one well-formed entry to the
//! roll trace, and for a dice node with integer operands the entry's size,
//! surviving-value count and total are pinned as well.

use vstd::prelude::*;
use crate::ast::{Ast, AstS, ast_view, obox_view, fmb_view};
use crate::filtermodifier::FilterModifier;
use crate::roll::{roll_die, Roll, RandomSource, roll_wf, filter_count, seq_sum};
use crate::text::str_to_chars;
use crate::value::{
    Value, Rat, value_wf, ov_match, add_spec, sub_spec, mul_spec, div_spec, rem_spec, neg_spec,
    floor_spec, pow_spec, fits_i64, v_add, v_sub, v_mul, v_div, v_rem, v_neg, v_floor, v_pow,
};

verus! {

/// The tree holds no dice node, so its evaluation needs no randomness.
pub open spec fn no_dice(a: AstS) -> bool
    decreases a,
{
    match a {
        AstS::Add(l, r) => no_dice(*l) && no_dice(*r),
        AstS::Sub(l, r) => no_dice(*l) && no_dice(*r),
        AstS::Mul(l, r) => no_dice(*l) && no_dice(*r),
        AstS::Div(l, r) => no_dice(*l) && no_dice(*r),
        AstS::Mod(l, r) => no_dice(*l) && no_dice(*r),
        AstS::IDiv(l, r) => no_dice(*l) && no_dice(*r),
        AstS::Power(l, r) => no_dice(*l) && no_dice(*r),
        AstS::Minus(l) => no_dice(*l),
        AstS::Dice(_, _, _, _) => false,
        AstS::Const(_) => true,
    }
}

/// The position keys of all dice nodes in the tree.
pub open spec fn dice_keys(a: AstS) -> Set<u64>
    decreases a,
{
    match a {
        AstS::Add(l, r) => dice_keys(*l).union(dice_keys(*r)),
        AstS::Sub(l, r) => dice_keys(*l).union(dice_keys(*r)),
        AstS::Mul(l, r) => dice_keys(*l).union(dice_keys(*r)),
        AstS::Div(l, r) => dice_keys(*l).union(dice_keys(*r)),
        AstS::Mod(l, r) => dice_keys(*l).union(dice_keys(*r)),
        AstS::IDiv(l, r) => dice_keys(*l).union(dice_keys(*r)),
        AstS::Power(l, r) => dice_keys(*l).union(dice_keys(*r)),
        AstS::Minus(l) => dice_keys(*l),
        AstS::Dice(c, s, fm, dp) => obox_keys(c).union(obox_keys(s)).union(fm_keys(fm)).insert(
            dp,
        ),
        AstS::Const(_) => Set::empty(),
    }
}

pub open spec fn obox_keys(o: Option<Box<AstS>>) -> Set<u64>
    decreases o,
{
    match o {
        Option::Some(b) => dice_keys(*b),
        Option::None => Set::empty(),
    }
}

pub open spec fn fm_keys(fm: FilterModifier<Box<AstS>>) -> Set<u64>
    decreases fm,
{
    match fm {
        FilterModifier::KeepLowest(b) => dice_keys(*b),
        FilterModifier::KeepHighest(b) => dice_keys(*b),
        FilterModifier::DropLowest(b) => dice_keys(*b),
        FilterModifier::DropHighest(b) => dice_keys(*b),
        FilterModifier::Unfiltered => Set::empty(),
    }
}

/// The position keys present in a roll trace.
pub open spec fn trace_keys(tr: Seq<(u64, Roll)>) -> Set<u64> {
    Set::new(|k: u64| exists|i: int| 0 <= i < tr.len() && (#[trigger] tr[i]).0 == k)
}

/// One evaluation step only appends well-formed entries to the trace.
pub open spec fn trace_extends(pre: Seq<(u64, Roll)>, post: Seq<(u64, Roll)>) -> bool {
    &&& pre.len() <= post.len()
    &&& post.subrange(0, pre.len() as int) == pre
    &&& forall|i: int| pre.len() <= i < post.len() ==> roll_wf((#[trigger] post[i]).1)
}

pub proof fn lemma_extends_refl(a: Seq<(u64, Roll)>)
    ensures
        trace_extends(a, a),
{
    assert(a.subrange(0, a.len() as int) =~= a);
}

pub proof fn lemma_extends_trans(a: Seq<(u64, Roll)>, b: Seq<(u64, Roll)>, c: Seq<(u64, Roll)>)
    requires
        trace_extends(a, b),
        trace_extends(b, c),
    ensures
        trace_extends(a, c),
{
    assert(c.subrange(0, a.len() as int) =~= a) by {
        assert forall|i: int| 0 <= i < a.len() implies c[i] == a[i] by {
            assert(b.subrange(0, a.len() as int)[i] == a[i]);
            assert(c.subrange(0, b.len() as int)[i] == b[i]);
        }
    }
    assert forall|i: int| a.len() <= i < c.len() implies roll_wf((#[trigger] c[i]).1) by {
        if i < b.len() {
            assert(c.subrange(0, b.len() as int)[i] == b[i]);
            if i >= a.len() {
                assert(roll_wf(b[i].1));
            }
        }
    }
}

pub proof fn lemma_extends_keys(a: Seq<(u64, Roll)>, b: Seq<(u64, Roll)>)
    requires
        trace_extends(a, b),
    ensures
        trace_keys(a).subset_of(trace_keys(b)),
{
    assert forall|k: u64| trace_keys(a).contains(k) implies trace_keys(b).contains(k) by {
        let i = choose|i: int| 0 <= i < a.len() && (#[trigger] a[i]).0 == k;
        assert(b.subrange(0, a.len() as int)[i] == a[i]);
        assert(b[i].0 == k);
    }
}

/// Every entry the step appended carries a key from `ks`.
pub open spec fn appended_keys_in(pre: Seq<(u64, Roll)>, post: Seq<(u64, Roll)>, ks: Set<u64>) -> bool {
    forall|i: int| pre.len() <= i < post.len() ==> ks.contains((#[trigger] post[i]).0)
}

/// Composes key containment across two consecutive steps.
pub proof fn lemma_appended_in_trans(
    a: Seq<(u64, Roll)>,
    b: Seq<(u64, Roll)>,
    c: Seq<(u64, Roll)>,
    ks1: Set<u64>,
    ks2: Set<u64>,
    ks: Set<u64>,
)
    requires
        trace_extends(a, b),
        trace_extends(b, c),
        appended_keys_in(a, b, ks1),
        appended_keys_in(b, c, ks2),
        ks1.subset_of(ks),
        ks2.subset_of(ks),
    ensures
        appended_keys_in(a, c, ks),
{
    assert forall|i: int| a.len() <= i < c.len() implies ks.contains((#[trigger] c[i]).0) by {
        if i < b.len() {
            assert(c.subrange(0, b.len() as int)[i] == b[i]);
            assert(ks1.contains(b[i].0));
        } else {
            assert(ks2.contains(c[i].0));
        }
    }
}

/// The appended trace region splits at `m`: entries before it carry keys
/// from `ks1`, entries from it on carry keys from `ks2` — evaluation
/// order, with the first operand's rolls before the second's.
pub open spec fn split_ordered(
    pre: Seq<(u64, Roll)>,
    post: Seq<(u64, Roll)>,
    ks1: Set<u64>,
    ks2: Set<u64>,
    m: int,
) -> bool {
    &&& pre.len() <= m <= post.len()
    &&& forall|i: int| pre.len() <= i < m ==> ks1.contains((#[trigger] post[i]).0)
    &&& forall|i: int| m <= i < post.len() ==> ks2.contains((#[trigger] post[i]).0)
}

/// Key containment survives enlarging the key set.
pub proof fn lemma_appended_weaken(
    pre: Seq<(u64, Roll)>,
    post: Seq<(u64, Roll)>,
    ks1: Set<u64>,
    ks: Set<u64>,
)
    requires
        appended_keys_in(pre, post, ks1),
        ks1.subset_of(ks),
    ensures
        appended_keys_in(pre, post, ks),
{
}

/// A decimal digit's value; anything else counts as zero (the guards
/// demand digits before this is used).
pub open spec fn digit_of(c: char) -> int {
    if c == '0' { 0 }
    else if c == '1' { 1 }
    else if c == '2' { 2 }
    else if c == '3' { 3 }
    else if c == '4' { 4 }
    else if c == '5' { 5 }
    else if c == '6' { 6 }
    else if c == '7' { 7 }
    else if c == '8' { 8 }
    else if c == '9' { 9 }
    else { 0 }
}

pub open spec fn is_digit(c: char) -> bool {
    c == '0' || c == '1' || c == '2' || c == '3' || c == '4' || c == '5' || c == '6' || c == '7'
        || c == '8' || c == '9'
}

pub open spec fn all_digits(s: Seq<char>) -> bool {
    forall|i: int| 0 <= i < s.len() ==> is_digit(#[trigger] s[i])
}

/// The number a digit string denotes.
pub open spec fn digits_val(s: Seq<char>) -> int
    decreases s.len(),
{
    if s.len() == 0 {
        0
    } else {
        digits_val(s.drop_last()) * 10 + digit_of(s.last())
    }
}

pub open spec fn pow10(n: nat) -> int
    decreases n,
{
    if n == 0 {
        1
    } else {
        10 * pow10((n - 1) as nat)
    }
}

/// How many decimal points the literal holds.
pub open spec fn count_dots(s: Seq<char>) -> nat
    decreases s.len(),
{
    if s.len() == 0 {
        0
    } else {
        count_dots(s.drop_last()) + if s.last() == '.' {
            1nat
        } else {
            0nat
        }
    }
}

/// The index of the first decimal point, or the length when there is
/// none.
pub open spec fn first_dot(s: Seq<char>) -> int
    decreases s.len(),
{
    if s.len() == 0 {
        0
    } else if s[0] == '.' {
        0
    } else {
        1 + first_dot(s.drop_first())
    }
}

/// What a stored numeric literal evaluates to: no decimal point makes an
/// integer, exactly one makes the exact rational the decimal denotes, and
/// anything else — a malformed literal or a value whose parts leave the
/// 64-bit range — is an error.
pub open spec fn const_spec(s: Seq<char>) -> Option<Value> {
    let dots = count_dots(s);
    if dots == 0 {
        if s.len() > 0 && all_digits(s) && digits_val(s) <= i64::MAX {
            Option::Some(Value::Int(digits_val(s) as i64))
        } else {
            Option::None
        }
    } else if dots == 1 {
        let k = first_dot(s);
        let ip = s.subrange(0, k);
        let fp = s.subrange(k + 1, s.len() as int);
        if all_digits(ip) && all_digits(fp) && ip.len() + fp.len() > 0 {
            let den = pow10(fp.len());
            let num = digits_val(ip) * den + digits_val(fp);
            if num <= i64::MAX && den <= i64::MAX {
                Option::Some(Value::Float(Rat { num: num as i64, den: den as i64 }))
            } else {
                Option::None
            }
        } else {
            Option::None
        }
    } else {
        Option::None
    }
}

/// What a dice-free tree evaluates to: the exact value, or an error —
/// from a malformed literal, an overflowing operation, a division or
/// remainder by zero, or an unusable exponent.
pub open spec fn eval_spec(a: AstS) -> Option<Value>
    decreases a,
{
    match a {
        AstS::Add(l, r) => match (eval_spec(*l), eval_spec(*r)) {
            (Option::Some(x), Option::Some(y)) => add_spec(x, y),
            _ => Option::None,
        },
        AstS::Sub(l, r) => match (eval_spec(*l), eval_spec(*r)) {
            (Option::Some(x), Option::Some(y)) => sub_spec(x, y),
            _ => Option::None,
        },
        AstS::Mul(l, r) => match (eval_spec(*l), eval_spec(*r)) {
            (Option::Some(x), Option::Some(y)) => mul_spec(x, y),
            _ => Option::None,
        },
        AstS::Div(l, r) => match (eval_spec(*l), eval_spec(*r)) {
            (Option::Some(x), Option::Some(y)) => div_spec(x, y),
            _ => Option::None,
        },
        AstS::Mod(l, r) => match (eval_spec(*l), eval_spec(*r)) {
            (Option::Some(x), Option::Some(y)) => rem_spec(x, y),
            _ => Option::None,
        },
        AstS::IDiv(l, r) => match (eval_spec(*l), eval_spec(*r)) {
            (Option::Some(x), Option::Some(y)) => match div_spec(x, y) {
                Option::Some(v) => Option::Some(floor_spec(v)),
                Option::None => Option::None,
            },
            _ => Option::None,
        },
        AstS::Power(l, r) => match (eval_spec(*l), eval_spec(*r)) {
            (Option::Some(x), Option::Some(y)) => pow_spec(x, y),
            _ => Option::None,
        },
        AstS::Minus(l) => match eval_spec(*l) {
            Option::Some(x) => neg_spec(x),
            Option::None => Option::None,
        },
        AstS::Const(s) => const_spec(s),
        AstS::Dice(_, _, _, _) => Option::None,
    }
}

/// The evaluation measure: a dice node's missing count or size costs more
/// than the literal the evaluator fills in for it, so the default-filling
/// rewrite strictly shrinks the tree.
pub open spec fn msize(a: AstS) -> nat
    decreases a,
{
    match a {
        AstS::Add(l, r) => 1 + msize(*l) + msize(*r),
        AstS::Sub(l, r) => 1 + msize(*l) + msize(*r),
        AstS::Mul(l, r) => 1 + msize(*l) + msize(*r),
        AstS::Div(l, r) => 1 + msize(*l) + msize(*r),
        AstS::Mod(l, r) => 1 + msize(*l) + msize(*r),
        AstS::IDiv(l, r) => 1 + msize(*l) + msize(*r),
        AstS::Power(l, r) => 1 + msize(*l) + msize(*r),
        AstS::Minus(l) => 1 + msize(*l),
        AstS::Dice(c, s, fm, _) => 1 + omsize(c) + omsize(s) + fmsize(fm),
        AstS::Const(_) => 1,
    }
}

pub open spec fn omsize(o: Option<Box<AstS>>) -> nat
    decreases o,
{
    match o {
        Option::Some(b) => msize(*b),
        Option::None => 2,
    }
}

pub open spec fn fmsize(fm: FilterModifier<Box<AstS>>) -> nat
    decreases fm,
{
    match fm {
        FilterModifier::KeepLowest(b) => 1 + msize(*b),
        FilterModifier::KeepHighest(b) => 1 + msize(*b),
        FilterModifier::DropLowest(b) => 1 + msize(*b),
        FilterModifier::DropHighest(b) => 1 + msize(*b),
        FilterModifier::Unfiltered => 1,
    }
}

/// The value a dice count resolves to: one when absent.
pub open spec fn dcount(c: Option<Box<AstS>>) -> Option<Value> {
    match c {
        Option::None => Option::Some(Value::Int(1)),
        Option::Some(b) => eval_spec(*b),
    }
}

/// The value a die size resolves to: twenty when absent.
pub open spec fn dsides(s: Option<Box<AstS>>) -> Option<Value> {
    match s {
        Option::None => Option::Some(Value::Int(20)),
        Option::Some(b) => eval_spec(*b),
    }
}

pub open spec fn as_int(o: Option<Value>) -> Option<i64> {
    match o {
        Option::Some(Value::Int(i)) => Option::Some(i),
        _ => Option::None,
    }
}

pub open spec fn obox_nd(o: Option<Box<AstS>>) -> bool {
    match o {
        Option::Some(b) => no_dice(*b),
        Option::None => true,
    }
}

pub open spec fn fm_nd(fm: FilterModifier<Box<AstS>>) -> bool {
    match fm {
        FilterModifier::KeepLowest(b) => no_dice(*b),
        FilterModifier::KeepHighest(b) => no_dice(*b),
        FilterModifier::DropLowest(b) => no_dice(*b),
        FilterModifier::DropHighest(b) => no_dice(*b),
        FilterModifier::Unfiltered => true,
    }
}

/// Every filter-modifier argument evaluates to a nonnegative integer.
pub open spec fn fm_ok(fm: FilterModifier<Box<AstS>>) -> bool {
    match fm {
        FilterModifier::Unfiltered => true,
        FilterModifier::KeepLowest(b) => as_int(eval_spec(*b)) matches Option::Some(k) && k >= 0,
        FilterModifier::KeepHighest(b) => as_int(eval_spec(*b)) matches Option::Some(k) && k >= 0,
        FilterModifier::DropLowest(b) => as_int(eval_spec(*b)) matches Option::Some(k) && k >= 0,
        FilterModifier::DropHighest(b) => as_int(eval_spec(*b)) matches Option::Some(k) && k >= 0,
    }
}

pub open spec fn fm_arg(b: Box<AstS>) -> u64 {
    match as_int(eval_spec(*b)) {
        Option::Some(k) => k as u64,
        Option::None => 0,
    }
}

/// The resolved filter modifier, with each argument as its integer.
pub open spec fn fm_of(fm: FilterModifier<Box<AstS>>) -> FilterModifier<u64> {
    match fm {
        FilterModifier::KeepLowest(b) => FilterModifier::KeepLowest(fm_arg(b)),
        FilterModifier::KeepHighest(b) => FilterModifier::KeepHighest(fm_arg(b)),
        FilterModifier::DropLowest(b) => FilterModifier::DropLowest(fm_arg(b)),
        FilterModifier::DropHighest(b) => FilterModifier::DropHighest(fm_arg(b)),
        FilterModifier::Unfiltered => FilterModifier::Unfiltered,
    }
}

pub open spec fn count_of(c: Option<Box<AstS>>) -> i64 {
    match as_int(dcount(c)) {
        Option::Some(n) => n,
        Option::None => 0,
    }
}

pub open spec fn sides_of(s: Option<Box<AstS>>) -> i64 {
    match as_int(dsides(s)) {
        Option::Some(m) => m,
        Option::None => 0,
    }
}

/// A dice node whose operands are dice-free and resolve to usable
/// integers: a nonnegative count within the machine's limits, a positive
/// size, a product that fits the 64-bit total, and nonnegative filter
/// arguments.  For such a node the evaluator's behaviour is pinned
/// exactly.
pub open spec fn simple_dice_ok(
    c: Option<Box<AstS>>,
    s: Option<Box<AstS>>,
    fm: FilterModifier<Box<AstS>>,
) -> bool {
    &&& obox_nd(c)
    &&& obox_nd(s)
    &&& fm_nd(fm)
    &&& as_int(dcount(c)) is Some
    &&& as_int(dsides(s)) is Some
    &&& count_of(c) >= 0
    &&& sides_of(s) >= 1
    &&& (count_of(c) as u64) < usize::MAX
    &&& (count_of(c) as int) * (sides_of(s) as int) <= i64::MAX
    &&& fm_ok(fm)
}

proof fn lemma_digits_nonneg(t: Seq<char>)
    ensures
        digits_val(t) >= 0,
    decreases t.len(),
{
    if t.len() > 0 {
        lemma_digits_nonneg(t.drop_last());
    }
}

/// A digit string's value only grows as digits are appended.
proof fn lemma_digits_prefix(t: Seq<char>, j: int)
    requires
        0 <= j <= t.len(),
    ensures
        digits_val(t.subrange(0, j)) <= digits_val(t),
    decreases t.len(),
{
    lemma_digits_nonneg(t);
    if j == t.len() {
        assert(t.subrange(0, j) =~= t);
    } else {
        lemma_digits_prefix(t.drop_last(), j);
        assert(t.drop_last().subrange(0, j) =~= t.subrange(0, j));
        lemma_digits_nonneg(t.drop_last());
    }
}

proof fn lemma_pow10_pos(n: nat)
    ensures
        pow10(n) >= 1,
    decreases n,
{
    if n > 0 {
        lemma_pow10_pos((n - 1) as nat);
    }
}

proof fn lemma_pow10_mono(k: nat, n: nat)
    requires
        k <= n,
    ensures
        pow10(k) <= pow10(n),
    decreases n,
{
    lemma_pow10_pos(k);
    if k < n {
        lemma_pow10_mono(k, (n - 1) as nat);
        lemma_pow10_pos((n - 1) as nat);
    }
}

/// Parses the digit run `cv[from..to]`, or reports why it is not a
/// representable digit run.
#[verifier::loop_isolation(false)]
fn parse_digits(cv: &Vec<char>, from: usize, to: usize) -> (r: Result<u64, String>)
    requires
        from <= to <= cv@.len(),
    ensures
        ({
            let s = cv@.subrange(from as int, to as int);
            match r {
                Ok(v) => all_digits(s) && digits_val(s) == v && v <= i64::MAX,
                Err(_) => !(all_digits(s) && digits_val(s) <= i64::MAX),
            }
        }),
{
    let ghost s = cv@.subrange(from as int, to as int);
    let mut acc: u64 = 0;
    let mut i: usize = from;
    while i < to
        invariant
            from <= i <= to,
            acc as int == digits_val(cv@.subrange(from as int, i as int)),
            acc <= i64::MAX,
            all_digits(cv@.subrange(from as int, i as int)),
        decreases to - i,
    {
        let c = cv[i];
        let d: u64 = match c {
            '0' => 0,
            '1' => 1,
            '2' => 2,
            '3' => 3,
            '4' => 4,
            '5' => 5,
            '6' => 6,
            '7' => 7,
            '8' => 8,
            '9' => 9,
            _ => {
                proof {
                    assert(s[i - from] == c);
                    assert(!is_digit(c));
                }
                return Err("number holds a character that is not a digit".to_owned());
            },
        };
        proof {
            assert(d as int == digit_of(c));
            assert(is_digit(c));
            assert(cv@.subrange(from as int, i + 1).drop_last() =~= cv@.subrange(
                from as int,
                i as int,
            ));
            assert(cv@.subrange(from as int, i + 1).last() == c);
        }
        let wide: u128 = (acc as u128) * 10 + (d as u128);
        if wide > i64::MAX as u128 {
            proof {
                lemma_digits_prefix(s, i + 1 - from);
                assert(s.subrange(0, i + 1 - from) =~= cv@.subrange(from as int, i + 1));
                lemma_digits_nonneg(s);
            }
            return Err("number is too large".to_owned());
        }
        acc = wide as u64;
        i = i + 1;
    }
    proof {
        assert(cv@.subrange(from as int, to as int) =~= s);
    }
    Ok(acc)
}

/// Ten to the given power, while it stays representable.
fn pow10_exec(n: usize) -> (r: Result<u64, String>)
    ensures
        match r {
            Ok(v) => pow10(n as nat) == v && 1 <= v <= i64::MAX,
            Err(_) => pow10(n as nat) > i64::MAX,
        },
{
    let mut acc: u64 = 1;
    let mut i: usize = 0;
    while i < n
        invariant
            i <= n,
            acc as int == pow10(i as nat),
            1 <= acc <= i64::MAX,
        decreases n - i,
    {
        let wide: u128 = (acc as u128) * 10;
        if wide > i64::MAX as u128 {
            proof {
                lemma_pow10_mono((i + 1) as nat, n as nat);
            }
            return Err("number is too small to represent".to_owned());
        }
        acc = wide as u64;
        i = i + 1;
    }
    Ok(acc)
}

/// Evaluates a stored numeric literal, exactly as [`const_spec`] says.
#[verifier::loop_isolation(false)]
fn eval_const(s: &str) -> (r: Result<Value, String>)
    ensures
        ov_match(const_spec(s@), r),
        r matches Ok(v) ==> value_wf(v),
        count_dots(s@) >= 2 ==> (r matches Err(e) && e@ == s@
            + " couldn't be parsed as number (too many dots)"@),
{
    let cv: Vec<char> = str_to_chars(s);
    let n: usize = cv.len();
    let mut dots: usize = 0;
    let mut fd: usize = n;
    let mut i: usize = 0;
    while i < n
        invariant
            i <= n,
            n == s@.len(),
            dots <= i,
            dots as nat == count_dots(s@.subrange(0, i as int)),
            dots == 0 ==> fd == n && (forall|j: int| 0 <= j < i ==> s@[j] != '.'),
            dots > 0 ==> fd < i && s@[fd as int] == '.' && (forall|j: int|
                0 <= j < fd ==> s@[j] != '.'),
        decreases n - i,
    {
        let c = cv[i];
        proof {
            assert(s@.subrange(0, i + 1).drop_last() =~= s@.subrange(0, i as int));
            assert(s@.subrange(0, i + 1).last() == c);
        }
        if c == '.' {
            if dots == 0 {
                fd = i;
            }
            dots = dots + 1;
        }
        i = i + 1;
    }
    proof {
        assert(s@.subrange(0, n as int) =~= s@);
    }
    if dots == 0 {
        if n == 0 {
            return Err("cannot parse a number from empty text".to_owned());
        }
        let v = match parse_digits(&cv, 0, n) {
            Ok(v) => v,
            Err(e) => {
                proof {
                    assert(cv@.subrange(0, n as int) =~= s@);
                }
                return Err(e);
            },
        };
        proof {
            assert(cv@.subrange(0, n as int) =~= s@);
        }
        Ok(Value::Int(v as i64))
    } else if dots == 1 {
        proof {
            lemma_first_dot_at(s@, fd as int);
        }
        if n == 1 {
            return Err(
                "number must hold a digit beside the decimal point".to_owned(),
            );
        }
        let ghost ip = s@.subrange(0, fd as int);
        let ghost fp = s@.subrange(fd as int + 1, n as int);
        let ipv = match parse_digits(&cv, 0, fd) {
            Ok(v) => v,
            Err(e) => {
                proof {
                    assert(cv@.subrange(0, fd as int) =~= ip);
                    lemma_const_float_fail(s@, fd as int);
                }
                return Err(e);
            },
        };
        let fpv = match parse_digits(&cv, fd + 1, n) {
            Ok(v) => v,
            Err(e) => {
                proof {
                    assert(cv@.subrange(fd as int + 1, n as int) =~= fp);
                    lemma_const_float_fail(s@, fd as int);
                }
                return Err(e);
            },
        };
        proof {
            assert(cv@.subrange(0, fd as int) =~= ip);
            assert(cv@.subrange(fd as int + 1, n as int) =~= fp);
        }
        let den = match pow10_exec(n - fd - 1) {
            Ok(v) => v,
            Err(_) => {
                proof {
                    lemma_const_float_fail(s@, fd as int);
                    lemma_digits_nonneg(ip);
                    lemma_digits_nonneg(fp);
                    assert(digits_val(ip) * pow10(fp.len()) >= 0) by (nonlinear_arith)
                        requires
                            digits_val(ip) >= 0 && pow10(fp.len()) > i64::MAX,
                    ;
                }
                return Err("number is too small to represent".to_owned());
            },
        };
        proof {
            assert((ipv as int) * (den as int) <= 0x40000000000000000000000000000000)
                by (nonlinear_arith)
                requires
                    0 <= ipv <= 0x7fffffffffffffff && 0 <= den <= 0x7fffffffffffffff,
            ;
        }
        let wide: u128 = (ipv as u128) * (den as u128) + (fpv as u128);
        if wide > i64::MAX as u128 {
            return Err("number is too large".to_owned());
        }
        Ok(Value::Float(Rat { num: wide as i64, den: den as i64 }))
    } else {
        let msg = s.to_owned().concat(" couldn't be parsed as number (too many dots)");
        Err(msg)
    }
}

/// A known dot position pins [`first_dot`].
proof fn lemma_first_dot_at(s: Seq<char>, k: int)
    requires
        0 <= k < s.len(),
        s[k] == '.',
        forall|j: int| 0 <= j < k ==> s[j] != '.',
    ensures
        first_dot(s) == k,
    decreases s.len(),
{
    if k > 0 {
        lemma_first_dot_at(s.drop_first(), k - 1);
    }
}

/// When a fractional literal's parts are malformed or too large, the
/// whole literal evaluates to an error.
proof fn lemma_const_float_fail(s: Seq<char>, k: int)
    requires
        0 <= k < s.len(),
        first_dot(s) == k,
        count_dots(s) == 1,
    ensures
        ({
            let ip = s.subrange(0, k);
            let fp = s.subrange(k + 1, s.len() as int);
            !(all_digits(ip) && digits_val(ip) <= i64::MAX) || !(all_digits(fp) && digits_val(fp)
                <= i64::MAX) || pow10(fp.len()) > i64::MAX ==> const_spec(s) is None
        }),
{
    let ip = s.subrange(0, k);
    let fp = s.subrange(k + 1, s.len() as int);
    lemma_digits_nonneg(ip);
    lemma_digits_nonneg(fp);
    lemma_pow10_pos(fp.len());
    if all_digits(ip) && all_digits(fp) && ip.len() + fp.len() > 0 {
        let den = pow10(fp.len());
        if digits_val(ip) > i64::MAX {
            assert(digits_val(ip) * den >= digits_val(ip)) by (nonlinear_arith)
                requires
                    den >= 1 && digits_val(ip) >= 0,
            ;
        }
        if digits_val(fp) > i64::MAX {
            assert(digits_val(ip) * den >= 0) by (nonlinear_arith)
                requires
                    den >= 1 && digits_val(ip) >= 0,
            ;
        }
        if den > i64::MAX {
            assert(digits_val(ip) * den >= 0) by (nonlinear_arith)
                requires
                    den >= 1 && digits_val(ip) >= 0,
            ;
        }
    }
}

proof fn lemma_msize_pos(a: AstS)
    ensures
        msize(a) >= 1,
{
    match a {
        AstS::Add(_, _) => {},
        AstS::Sub(_, _) => {},
        AstS::Mul(_, _) => {},
        AstS::Div(_, _) => {},
        AstS::Mod(_, _) => {},
        AstS::IDiv(_, _) => {},
        AstS::Power(_, _) => {},
        AstS::Minus(_) => {},
        AstS::Dice(_, _, _, _) => {},
        AstS::Const(_) => {},
    }
}

proof fn lemma_fmsize_pos(fm: FilterModifier<Box<AstS>>)
    ensures
        fmsize(fm) >= 1,
{
    match fm {
        FilterModifier::KeepLowest(_) => {},
        FilterModifier::KeepHighest(_) => {},
        FilterModifier::DropLowest(_) => {},
        FilterModifier::DropHighest(_) => {},
        FilterModifier::Unfiltered => {},
    }
}

/// For a positive `m`, `n <= max / m` is the overflow-free way to ask
/// whether `n * m <= max`.
proof fn lemma_div_check(n: int, m: int, max: int)
    requires
        n >= 0,
        m >= 1,
        max >= 0,
    ensures
        (n <= max / m) <==> (n * m <= max),
{
    vstd::arithmetic::div_mod::lemma_fundamental_div_mod(max, m);
    vstd::arithmetic::div_mod::lemma_mod_bound(max, m);
    let q = max / m;
    let rm = max % m;
    if n <= q {
        assert(n * m <= max) by (nonlinear_arith)
            requires
                n <= q && max == m * q + rm && rm >= 0 && m >= 1 && n >= 0,
        ;
    }
    if n > q {
        assert(n * m > max) by (nonlinear_arith)
            requires
                n >= q + 1 && max == m * q + rm && rm < m && m >= 1,
        ;
    }
}

/// Evaluates a filter modifier's argument to its integer count; the
/// argument must come out a nonnegative integer.
fn interp_fm<R: RandomSource>(
    fm: FilterModifier<Box<Ast>>,
    rolls: &mut Vec<(u64, Roll)>,
    rng: &mut R,
) -> (r: Result<FilterModifier<u64>, String>)
    ensures
        trace_extends(old(rolls)@, final(rolls)@),
        fm_nd(fmb_view(fm)) ==> final(rolls)@ == old(rolls)@ && (match r {
            Ok(f) => fm_ok(fmb_view(fm)) && f == fm_of(fmb_view(fm)),
            Err(_) => !fm_ok(fmb_view(fm)),
        }),
        r is Ok ==> fm_keys(fmb_view(fm)).subset_of(trace_keys(final(rolls)@)),
        appended_keys_in(old(rolls)@, final(rolls)@, fm_keys(fmb_view(fm))),
    decreases fmsize(fmb_view(fm)),
{
    match fm {
        FilterModifier::KeepLowest(b) => match b.interp(rolls, rng) {
            Err(e) => Err(e),
            Ok(v) => match v {
                Value::Int(k) => if k >= 0 {
                    Ok(FilterModifier::KeepLowest(k as u64))
                } else {
                    Err("filter modifier count is negative".to_owned())
                },
                _ => Err("filter modifier count couldn't be parsed as int".to_owned()),
            },
        },
        FilterModifier::KeepHighest(b) => match b.interp(rolls, rng) {
            Err(e) => Err(e),
            Ok(v) => match v {
                Value::Int(k) => if k >= 0 {
                    Ok(FilterModifier::KeepHighest(k as u64))
                } else {
                    Err("filter modifier count is negative".to_owned())
                },
                _ => Err("filter modifier count couldn't be parsed as int".to_owned()),
            },
        },
        FilterModifier::DropLowest(b) => match b.interp(rolls, rng) {
            Err(e) => Err(e),
            Ok(v) => match v {
                Value::Int(k) => if k >= 0 {
                    Ok(FilterModifier::DropLowest(k as u64))
                } else {
                    Err("filter modifier count is negative".to_owned())
                },
                _ => Err("filter modifier count couldn't be parsed as int".to_owned()),
            },
        },
        FilterModifier::DropHighest(b) => match b.interp(rolls, rng) {
            Err(e) => Err(e),
            Ok(v) => match v {
                Value::Int(k) => if k >= 0 {
                    Ok(FilterModifier::DropHighest(k as u64))
                } else {
                    Err("filter modifier count is negative".to_owned())
                },
                _ => Err("filter modifier count couldn't be parsed as int".to_owned()),
            },
        },
        FilterModifier::Unfiltered => {
            proof {
                lemma_extends_refl(rolls@);
            }
            Ok(FilterModifier::Unfiltered)
        },
    }
}


/// A binary arithmetic operator of the expression language.
pub enum BinOp {
    OpAdd,
    OpSub,
    OpMul,
    OpDiv,
    OpMod,
    OpIDiv,
    OpPower,
}

/// The exact result of one binary operator.
pub open spec fn bin_spec(op: BinOp, x: Value, y: Value) -> Option<Value> {
    match op {
        BinOp::OpAdd => add_spec(x, y),
        BinOp::OpSub => sub_spec(x, y),
        BinOp::OpMul => mul_spec(x, y),
        BinOp::OpDiv => div_spec(x, y),
        BinOp::OpMod => rem_spec(x, y),
        BinOp::OpIDiv => match div_spec(x, y) {
            Option::Some(v) => Option::Some(floor_spec(v)),
            Option::None => Option::None,
        },
        BinOp::OpPower => pow_spec(x, y),
    }
}

/// One binary operator over values, exactly as [`bin_spec`] says.
fn v_bin(op: &BinOp, a: Value, b: Value) -> (r: Result<Value, String>)
    requires
        value_wf(a),
        value_wf(b),
    ensures
        ov_match(bin_spec(*op, a, b), r),
        r matches Ok(v) ==> value_wf(v),
{
    match op {
        BinOp::OpAdd => v_add(a, b),
        BinOp::OpSub => v_sub(a, b),
        BinOp::OpMul => v_mul(a, b),
        BinOp::OpDiv => v_div(a, b),
        BinOp::OpMod => v_rem(a, b),
        BinOp::OpIDiv => match v_div(a, b) {
            Ok(v) => Ok(v_floor(v)),
            Err(e) => Err(e),
        },
        BinOp::OpPower => v_pow(a, b),
    }
}

/// Evaluates both operands of a binary operator, left before right (dice
/// rolls reach the trace in evaluation order), then combines them.
fn interp_bin<R: RandomSource>(
    op: &BinOp,
    l: Box<Ast>,
    r: Box<Ast>,
    rolls: &mut Vec<(u64, Roll)>,
    rng: &mut R,
) -> (res: Result<Value, String>)
    ensures
        trace_extends(old(rolls)@, final(rolls)@),
        res matches Ok(v) ==> value_wf(v),
        no_dice(ast_view(*l)) && no_dice(ast_view(*r)) ==> final(rolls)@ == old(rolls)@
            && ov_match(
            match (eval_spec(ast_view(*l)), eval_spec(ast_view(*r))) {
                (Option::Some(x), Option::Some(y)) => bin_spec(*op, x, y),
                _ => Option::None,
            },
            res,
        ),
        res is Ok ==> dice_keys(ast_view(*l)).union(dice_keys(ast_view(*r))).subset_of(
            trace_keys(final(rolls)@),
        ),
        appended_keys_in(
            old(rolls)@,
            final(rolls)@,
            dice_keys(ast_view(*l)).union(dice_keys(ast_view(*r))),
        ),
        exists|m: int|
            #[trigger] split_ordered(
                old(rolls)@,
                final(rolls)@,
                dice_keys(ast_view(*l)),
                dice_keys(ast_view(*r)),
                m,
            ),
    decreases msize(ast_view(*l)) + msize(ast_view(*r)),
{
    let ghost lv = ast_view(*l);
    let ghost rv = ast_view(*r);
    let ghost ks = dice_keys(lv).union(dice_keys(rv));
    proof {
        lemma_msize_pos(lv);
        lemma_msize_pos(rv);
    }
    let a = match l.interp(rolls, rng) {
        Ok(v) => v,
        Err(e) => {
            proof {
                assert(split_ordered(
                    old(rolls)@,
                    rolls@,
                    dice_keys(lv),
                    dice_keys(rv),
                    rolls@.len() as int,
                ));
            }
            return Err(e);
        },
    };
    let ghost mid = rolls@;
    let b = match r.interp(rolls, rng) {
        Ok(v) => v,
        Err(e) => {
            proof {
                lemma_extends_trans(old(rolls)@, mid, rolls@);
                lemma_appended_in_trans(old(rolls)@, mid, rolls@, dice_keys(lv), dice_keys(rv), ks);
                assert forall|i: int|
                    old(rolls)@.len() <= i < mid.len() implies dice_keys(lv).contains(
                    (#[trigger] rolls@[i]).0) by {
                    assert(rolls@.subrange(0, mid.len() as int)[i] == mid[i]);
                }
                assert(split_ordered(
                    old(rolls)@,
                    rolls@,
                    dice_keys(lv),
                    dice_keys(rv),
                    mid.len() as int,
                ));
            }
            return Err(e);
        },
    };
    proof {
        lemma_extends_trans(old(rolls)@, mid, rolls@);
        lemma_extends_keys(mid, rolls@);
        lemma_appended_in_trans(old(rolls)@, mid, rolls@, dice_keys(lv), dice_keys(rv), ks);
        assert forall|i: int|
            old(rolls)@.len() <= i < mid.len() implies dice_keys(lv).contains(
            (#[trigger] rolls@[i]).0) by {
            assert(rolls@.subrange(0, mid.len() as int)[i] == mid[i]);
        }
        assert(split_ordered(
            old(rolls)@,
            rolls@,
            dice_keys(lv),
            dice_keys(rv),
            mid.len() as int,
        ));
    }
    v_bin(op, a, b)
}

impl Ast {
    /// Evaluates the tree, appending every dice roll performed to the
    /// trace under the node's position key.  For a dice-free tree the
    /// result is the exact value (or error) [`eval_spec`] gives, and the
    /// trace is untouched.  Whatever the random source returns: the trace
    /// only ever grows by well-formed rolls, a success has visited every
    /// dice node of the tree, and for a dice node with dice-free operands
    /// resolving to usable integers the appended entry's die size,
    /// surviving-value count and total — which is the node's value — are
    /// pinned.
    #[verifier::rlimit(100)]
    #[verifier::spinoff_prover]
    pub fn interp<R: RandomSource>(self, rolls: &mut Vec<(u64, Roll)>, rng: &mut R) -> (r: Result<
        Value,
        String,
    >)
        ensures
            trace_extends(old(rolls)@, final(rolls)@),
            r matches Ok(v) ==> value_wf(v),
            no_dice(self@) ==> final(rolls)@ == old(rolls)@ && ov_match(eval_spec(self@), r),
            r is Ok ==> dice_keys(self@).subset_of(trace_keys(final(rolls)@)),
            appended_keys_in(old(rolls)@, final(rolls)@, dice_keys(self@)),
            self@ is Add ==> exists|m: int|
                #[trigger] split_ordered(
                    old(rolls)@,
                    final(rolls)@,
                    dice_keys(*self@->Add_0),
                    dice_keys(*self@->Add_1),
                    m,
                ),
            self@ is Sub ==> exists|m: int|
                #[trigger] split_ordered(
                    old(rolls)@,
                    final(rolls)@,
                    dice_keys(*self@->Sub_0),
                    dice_keys(*self@->Sub_1),
                    m,
                ),
            self@ is Mul ==> exists|m: int|
                #[trigger] split_ordered(
                    old(rolls)@,
                    final(rolls)@,
                    dice_keys(*self@->Mul_0),
                    dice_keys(*self@->Mul_1),
                    m,
                ),
            self@ is Div ==> exists|m: int|
                #[trigger] split_ordered(
                    old(rolls)@,
                    final(rolls)@,
                    dice_keys(*self@->Div_0),
                    dice_keys(*self@->Div_1),
                    m,
                ),
            self@ is Mod ==> exists|m: int|
                #[trigger] split_ordered(
                    old(rolls)@,
                    final(rolls)@,
                    dice_keys(*self@->Mod_0),
                    dice_keys(*self@->Mod_1),
                    m,
                ),
            self@ is IDiv ==> exists|m: int|
                #[trigger] split_ordered(
                    old(rolls)@,
                    final(rolls)@,
                    dice_keys(*self@->IDiv_0),
                    dice_keys(*self@->IDiv_1),
                    m,
                ),
            self@ is Power ==> exists|m: int|
                #[trigger] split_ordered(
                    old(rolls)@,
                    final(rolls)@,
                    dice_keys(*self@->Power_0),
                    dice_keys(*self@->Power_1),
                    m,
                ),
            (self@ is Dice && r is Ok) ==> final(rolls)@.len() > old(rolls)@.len()
                && final(rolls)@.last().0 == self@->Dice_3,
            self@ matches AstS::Dice(c, s, fm, dp) ==> ((obox_nd(c) && obox_nd(s) && fm_nd(fm))
                ==> (r is Ok <==> simple_dice_ok(c, s, fm))),
            self@ matches AstS::Dice(c, s, fm, dp) ==> ((obox_nd(c) && obox_nd(s) && fm_nd(fm)
                && r is Err) ==> final(rolls)@ == old(rolls)@),
            self@ matches AstS::Const(cs) ==> (count_dots(cs) >= 2 ==> (r matches Err(e) && e@
                == cs + " couldn't be parsed as number (too many dots)"@)),
            self@ matches AstS::Dice(c, s, fm, dp) ==> ((obox_nd(c) && obox_nd(s)) ==> (dcount(c)
                matches Option::Some(v) ==> (dsides(s) matches Option::Some(w) ==> (!(v is Int && w
                is Int) ==> (r matches Err(e) && e@
                == "couldn't be parsed as dice roll (no ints)"@))))),
            self@ matches AstS::Dice(c, s, fm, dp) ==> ((obox_nd(c) && obox_nd(s) && fm_nd(fm)
                && fm_ok(fm)) ==> (as_int(dcount(c)) matches Option::Some(n) ==> (n >= 0 ==> (
            as_int(dsides(s)) == Option::Some(0i64) ==> (r matches Err(e) && e@
                == "Can't roll zero sided die"@))))),
            (self@ matches AstS::Dice(c, s, fm, dp) && simple_dice_ok(c, s, fm)) ==> {
                &&& r is Ok
                &&& final(rolls)@.len() == old(rolls)@.len() + 1
                &&& ({
                    let entry = final(rolls)@.last();
                    let cview = (self@)->Dice_0;
                    let sview = (self@)->Dice_1;
                    let fmview = (self@)->Dice_2;
                    &&& entry.0 == (self@)->Dice_3
                    &&& entry.1.sides == sides_of(sview) as u64
                    &&& entry.1.vals@.len() == filter_count(
                        count_of(cview) as nat,
                        fm_of(fmview),
                    )
                    &&& r == Ok::<Value, String>(Value::Int(entry.1.total))
                })
            },
        decreases msize(self@),
    {
        let ghost selfv = self@;
        match self {
            Ast::Add(l, r) => {
                let ghost lv = ast_view(*l);
                let ghost rv = ast_view(*r);
                let res = interp_bin(&BinOp::OpAdd, l, r, rolls, rng);
                proof {
                    assert(dice_keys(selfv) == dice_keys(lv).union(dice_keys(rv)));
                    assert(*selfv->Add_0 == lv && *selfv->Add_1 == rv);
                    let m = choose|m: int|
                        #[trigger] split_ordered(
                            old(rolls)@,
                            rolls@,
                            dice_keys(lv),
                            dice_keys(rv),
                            m,
                        );
                    assert(split_ordered(
                        old(rolls)@,
                        rolls@,
                        dice_keys(*selfv->Add_0),
                        dice_keys(*selfv->Add_1),
                        m,
                    ));
                }
                res
            },
            Ast::Sub(l, r) => {
                let ghost lv = ast_view(*l);
                let ghost rv = ast_view(*r);
                let res = interp_bin(&BinOp::OpSub, l, r, rolls, rng);
                proof {
                    assert(dice_keys(selfv) == dice_keys(lv).union(dice_keys(rv)));
                    assert(*selfv->Sub_0 == lv && *selfv->Sub_1 == rv);
                    let m = choose|m: int|
                        #[trigger] split_ordered(
                            old(rolls)@,
                            rolls@,
                            dice_keys(lv),
                            dice_keys(rv),
                            m,
                        );
                    assert(split_ordered(
                        old(rolls)@,
                        rolls@,
                        dice_keys(*selfv->Sub_0),
                        dice_keys(*selfv->Sub_1),
                        m,
                    ));
                }
                res
            },
            Ast::Mul(l, r) => {
                let ghost lv = ast_view(*l);
                let ghost rv = ast_view(*r);
                let res = interp_bin(&BinOp::OpMul, l, r, rolls, rng);
                proof {
                    assert(dice_keys(selfv) == dice_keys(lv).union(dice_keys(rv)));
                    assert(*selfv->Mul_0 == lv && *selfv->Mul_1 == rv);
                    let m = choose|m: int|
                        #[trigger] split_ordered(
                            old(rolls)@,
                            rolls@,
                            dice_keys(lv),
                            dice_keys(rv),
                            m,
                        );
                    assert(split_ordered(
                        old(rolls)@,
                        rolls@,
                        dice_keys(*selfv->Mul_0),
                        dice_keys(*selfv->Mul_1),
                        m,
                    ));
                }
                res
            },
            Ast::Div(l, r) => {
                let ghost lv = ast_view(*l);
                let ghost rv = ast_view(*r);
                let res = interp_bin(&BinOp::OpDiv, l, r, rolls, rng);
                proof {
                    assert(dice_keys(selfv) == dice_keys(lv).union(dice_keys(rv)));
                    assert(*selfv->Div_0 == lv && *selfv->Div_1 == rv);
                    let m = choose|m: int|
                        #[trigger] split_ordered(
                            old(rolls)@,
                            rolls@,
                            dice_keys(lv),
                            dice_keys(rv),
                            m,
                        );
                    assert(split_ordered(
                        old(rolls)@,
                        rolls@,
                        dice_keys(*selfv->Div_0),
                        dice_keys(*selfv->Div_1),
                        m,
                    ));
                }
                res
            },
            Ast::Mod(l, r) => {
                let ghost lv = ast_view(*l);
                let ghost rv = ast_view(*r);
                let res = interp_bin(&BinOp::OpMod, l, r, rolls, rng);
                proof {
                    assert(dice_keys(selfv) == dice_keys(lv).union(dice_keys(rv)));
                    assert(*selfv->Mod_0 == lv && *selfv->Mod_1 == rv);
                    let m = choose|m: int|
                        #[trigger] split_ordered(
                            old(rolls)@,
                            rolls@,
                            dice_keys(lv),
                            dice_keys(rv),
                            m,
                        );
                    assert(split_ordered(
                        old(rolls)@,
                        rolls@,
                        dice_keys(*selfv->Mod_0),
                        dice_keys(*selfv->Mod_1),
                        m,
                    ));
                }
                res
            },
            Ast::IDiv(l, r) => {
                let ghost lv = ast_view(*l);
                let ghost rv = ast_view(*r);
                let res = interp_bin(&BinOp::OpIDiv, l, r, rolls, rng);
                proof {
                    assert(dice_keys(selfv) == dice_keys(lv).union(dice_keys(rv)));
                    assert(*selfv->IDiv_0 == lv && *selfv->IDiv_1 == rv);
                    let m = choose|m: int|
                        #[trigger] split_ordered(
                            old(rolls)@,
                            rolls@,
                            dice_keys(lv),
                            dice_keys(rv),
                            m,
                        );
                    assert(split_ordered(
                        old(rolls)@,
                        rolls@,
                        dice_keys(*selfv->IDiv_0),
                        dice_keys(*selfv->IDiv_1),
                        m,
                    ));
                }
                res
            },
            Ast::Power(l, r) => {
                let ghost lv = ast_view(*l);
                let ghost rv = ast_view(*r);
                let res = interp_bin(&BinOp::OpPower, l, r, rolls, rng);
                proof {
                    assert(dice_keys(selfv) == dice_keys(lv).union(dice_keys(rv)));
                    assert(*selfv->Power_0 == lv && *selfv->Power_1 == rv);
                    let m = choose|m: int|
                        #[trigger] split_ordered(
                            old(rolls)@,
                            rolls@,
                            dice_keys(lv),
                            dice_keys(rv),
                            m,
                        );
                    assert(split_ordered(
                        old(rolls)@,
                        rolls@,
                        dice_keys(*selfv->Power_0),
                        dice_keys(*selfv->Power_1),
                        m,
                    ));
                }
                res
            },
            Ast::Minus(l) => {
                let ghost lv = ast_view(*l);
                proof {
                    assert(dice_keys(selfv) == dice_keys(lv));
                }
                let a = match l.interp(rolls, rng) {
                    Ok(v) => v,
                    Err(e) => {
                        return Err(e);
                    },
                };
                v_neg(a)
            },
            Ast::Const(val) => {
                proof {
                    lemma_extends_refl(rolls@);
                    assert(dice_keys(selfv) =~= Set::<u64>::empty());
                }
                eval_const(val.as_str())
            },
            Ast::Dice(c, s, fm, dp) => {
                let ghost cs = obox_view(c);
                let ghost ss = obox_view(s);
                let ghost fms = fmb_view(fm);
                proof {
                    assert(selfv == AstS::Dice(cs, ss, fms, dp));
                    reveal_strlit("1");
                    reveal_strlit("20");
                    assert("1"@ =~= seq!['1']);
                    assert(crate::DEFAULT_SIDES@ =~= seq!['2', '0']);
                    assert(seq!['1'].drop_last() =~= Seq::<char>::empty());
                    assert(seq!['2', '0'].drop_last() =~= seq!['2']);
                    assert(seq!['2'].drop_last() =~= Seq::<char>::empty());
                    assert(count_dots(Seq::<char>::empty()) == 0);
                    assert(digits_val(Seq::<char>::empty()) == 0);
                    assert(count_dots(seq!['2']) == 0);
                    assert(digits_val(seq!['2']) == 2);
                    assert(count_dots(seq!['1']) == 0 && count_dots(seq!['2', '0']) == 0);
                    assert(digits_val(seq!['1']) == 1 && digits_val(seq!['2', '0']) == 20);
                    assert(all_digits(seq!['1']) && all_digits(seq!['2', '0']));
                    assert(const_spec(seq!['1']) == Option::Some(Value::Int(1)));
                    assert(const_spec(seq!['2', '0']) == Option::Some(Value::Int(20)));
                }
                let cb: Box<Ast> = match c {
                    Option::Some(b) => {
                        proof {
                            assert(cs == Option::Some(Box::new(ast_view(*b))));
                        }
                        b
                    },
                    Option::None => {
                        let one = Ast::Const("1".to_owned());
                        proof {
                            assert(one@ == AstS::Const("1"@));
                            assert(eval_spec(one@) == Option::Some(Value::Int(1)));
                            assert(dice_keys(one@) =~= Set::<u64>::empty());
                        }
                        Box::new(one)
                    },
                };
                let ghost cbv = ast_view(*cb);
                let sb: Box<Ast> = match s {
                    Option::Some(b) => {
                        proof {
                            assert(ss == Option::Some(Box::new(ast_view(*b))));
                        }
                        b
                    },
                    Option::None => {
                        let twenty = Ast::Const(crate::DEFAULT_SIDES.to_owned());
                        proof {
                            assert(twenty@ == AstS::Const("20"@));
                            assert(eval_spec(twenty@) == Option::Some(Value::Int(20)));
                            assert(dice_keys(twenty@) =~= Set::<u64>::empty());
                        }
                        Box::new(twenty)
                    },
                };
                let ghost sbv = ast_view(*sb);
                proof {
                    assert(dcount(cs) == dcount(Option::Some(Box::new(cbv))));
                    assert(dsides(ss) == dsides(Option::Some(Box::new(sbv))));
                    assert(obox_nd(cs) == obox_nd(Option::Some(Box::new(cbv))));
                    assert(obox_nd(ss) == obox_nd(Option::Some(Box::new(sbv))));
                    assert(obox_nd(cs) == no_dice(cbv));
                    assert(obox_nd(ss) == no_dice(sbv));
                    assert(dcount(cs) == eval_spec(cbv));
                    assert(dsides(ss) == eval_spec(sbv));
                    assert(simple_dice_ok(cs, ss, fms) == simple_dice_ok(
                        Option::Some(Box::new(cbv)),
                        Option::Some(Box::new(sbv)),
                        fms,
                    ));
                    assert(count_of(cs) == count_of(Option::Some(Box::new(cbv))));
                    assert(sides_of(ss) == sides_of(Option::Some(Box::new(sbv))));
                    assert(obox_keys(cs) =~= obox_keys(Option::Some(Box::new(cbv))));
                    assert(obox_keys(ss) =~= obox_keys(Option::Some(Box::new(sbv))));
                    assert(dice_keys(selfv) =~= obox_keys(Option::Some(Box::new(cbv))).union(
                        obox_keys(Option::Some(Box::new(sbv))),
                    ).union(fm_keys(fms)).insert(dp));
                    assert(msize(cbv) <= omsize(cs));
                    assert(msize(sbv) <= omsize(ss));
                    assert(msize(selfv) == 1 + omsize(cs) + omsize(ss) + fmsize(fms));
                }
                Self::interp_dice(cb, sb, fm, dp, rolls, rng)
            },
        }
    }

    /// The dice node with both operands present: both must evaluate to
    /// integers, the size must be positive, the count nonnegative and
    /// small enough that the total fits; then the engine rolls, the trace
    /// gains the roll under the node's key, and the roll's total is the
    /// node's value.
    #[verifier::rlimit(100)]
    #[verifier::spinoff_prover]
    fn interp_dice<R: RandomSource>(
        cb: Box<Ast>,
        sb: Box<Ast>,
        fm: FilterModifier<Box<Ast>>,
        dp: u64,
        rolls: &mut Vec<(u64, Roll)>,
        rng: &mut R,
    ) -> (r: Result<Value, String>)
        ensures
            trace_extends(old(rolls)@, final(rolls)@),
            r matches Ok(v) ==> value_wf(v),
            r is Ok ==> dice_keys(
                AstS::Dice(
                    Option::Some(Box::new(ast_view(*cb))),
                    Option::Some(Box::new(ast_view(*sb))),
                    fmb_view(fm),
                    dp,
                ),
            ).subset_of(trace_keys(final(rolls)@)),
            appended_keys_in(
                old(rolls)@,
                final(rolls)@,
                dice_keys(
                    AstS::Dice(
                        Option::Some(Box::new(ast_view(*cb))),
                        Option::Some(Box::new(ast_view(*sb))),
                        fmb_view(fm),
                        dp,
                    ),
                ),
            ),
            r is Ok ==> final(rolls)@.len() > old(rolls)@.len() && final(rolls)@.last().0 == dp,
            (no_dice(ast_view(*cb)) && no_dice(ast_view(*sb)) && fm_nd(fmb_view(fm))) ==> (r
                is Ok <==> simple_dice_ok(
                Option::Some(Box::new(ast_view(*cb))),
                Option::Some(Box::new(ast_view(*sb))),
                fmb_view(fm),
            )),
            (no_dice(ast_view(*cb)) && no_dice(ast_view(*sb)) && fm_nd(fmb_view(fm)) && r
                is Err) ==> final(rolls)@ == old(rolls)@,
            (no_dice(ast_view(*cb)) && no_dice(ast_view(*sb)) && (eval_spec(ast_view(*cb))
                matches Option::Some(v) && (eval_spec(ast_view(*sb)) matches Option::Some(w) && !(v
                is Int && w is Int)))) ==> (r matches Err(e) && e@
                == "couldn't be parsed as dice roll (no ints)"@),
            (no_dice(ast_view(*cb)) && no_dice(ast_view(*sb)) && fm_nd(fmb_view(fm)) && fm_ok(
                fmb_view(fm),
            )) ==> (as_int(eval_spec(ast_view(*cb))) matches Option::Some(n) ==> (n >= 0 ==> (
            as_int(eval_spec(ast_view(*sb))) == Option::Some(0i64) ==> (r matches Err(e) && e@
                == "Can't roll zero sided die"@)))),
            simple_dice_ok(
                Option::Some(Box::new(ast_view(*cb))),
                Option::Some(Box::new(ast_view(*sb))),
                fmb_view(fm),
            ) ==> {
                &&& r is Ok
                &&& final(rolls)@.len() == old(rolls)@.len() + 1
                &&& ({
                    let entry = final(rolls)@.last();
                    &&& entry.0 == dp
                    &&& entry.1.sides == sides_of(Option::Some(Box::new(ast_view(*sb)))) as u64
                    &&& entry.1.vals@.len() == filter_count(
                        count_of(Option::Some(Box::new(ast_view(*cb)))) as nat,
                        fm_of(fmb_view(fm)),
                    )
                    &&& r == Ok::<Value, String>(Value::Int(entry.1.total))
                })
            },
        decreases msize(ast_view(*cb)) + msize(ast_view(*sb)) + fmsize(fmb_view(fm)),
    {
        let ghost cview = ast_view(*cb);
        let ghost sview = ast_view(*sb);
        let ghost fmv = fmb_view(fm);
        let ghost node = AstS::Dice(
            Option::Some(Box::new(cview)),
            Option::Some(Box::new(sview)),
            fmv,
            dp,
        );
        proof {
            lemma_msize_pos(cview);
            lemma_msize_pos(sview);
            lemma_fmsize_pos(fmv);
            assert(omsize(Option::Some(Box::new(cview))) == msize(cview));
            assert(omsize(Option::Some(Box::new(sview))) == msize(sview));
            assert(obox_keys(Option::Some(Box::new(cview))) == dice_keys(cview));
            assert(obox_keys(Option::Some(Box::new(sview))) == dice_keys(sview));
            assert(dice_keys(node) == obox_keys(Option::Some(Box::new(cview))).union(
                obox_keys(Option::Some(Box::new(sview))),
            ).union(fm_keys(fmv)).insert(dp));
            assert(dice_keys(cview).subset_of(dice_keys(node)));
            assert(dice_keys(sview).subset_of(dice_keys(node)));
            assert(fm_keys(fmv).subset_of(dice_keys(node)));
        }
        let ghost csome = Option::Some(Box::new(cview));
        let ghost ssome = Option::Some(Box::new(sview));
        let lv = match cb.interp(rolls, rng) {
            Ok(v) => v,
            Err(e) => {
                proof {
                    lemma_appended_weaken(old(rolls)@, rolls@, dice_keys(cview), dice_keys(node));
                    if no_dice(cview) {
                        assert(eval_spec(cview) is None);
                        assert(as_int(dcount(csome)) is None);
                        assert(!simple_dice_ok(csome, ssome, fmv));
                    }
                }
                return Err(e);
            },
        };
        let ghost t1 = rolls@;
        let rv = match sb.interp(rolls, rng) {
            Ok(v) => v,
            Err(e) => {
                proof {
                    lemma_extends_trans(old(rolls)@, t1, rolls@);
                    lemma_appended_in_trans(
                        old(rolls)@,
                        t1,
                        rolls@,
                        dice_keys(cview),
                        dice_keys(sview),
                        dice_keys(node),
                    );
                    if no_dice(sview) {
                        assert(eval_spec(sview) is None);
                        assert(as_int(dsides(ssome)) is None);
                        assert(!simple_dice_ok(csome, ssome, fmv));
                    }
                }
                return Err(e);
            },
        };
        proof {
            lemma_extends_trans(old(rolls)@, t1, rolls@);
            lemma_appended_in_trans(
                old(rolls)@,
                t1,
                rolls@,
                dice_keys(cview),
                dice_keys(sview),
                dice_keys(node),
            );
        }
        let ghost t2 = rolls@;
        let (li, ri) = match (lv, rv) {
            (Value::Int(li), Value::Int(ri)) => (li, ri),
            _ => {
                proof {
                    if no_dice(cview) && no_dice(sview) {
                        assert(as_int(dcount(csome)) is None || as_int(dsides(ssome)) is None);
                        assert(!simple_dice_ok(csome, ssome, fmv));
                    }
                }
                return Err("couldn't be parsed as dice roll (no ints)".to_owned());
            },
        };
        let fm_int = match interp_fm(fm, rolls, rng) {
            Ok(f) => f,
            Err(e) => {
                proof {
                    lemma_extends_trans(old(rolls)@, t2, rolls@);
                    lemma_appended_in_trans(
                        old(rolls)@,
                        t2,
                        rolls@,
                        dice_keys(node),
                        fm_keys(fmv),
                        dice_keys(node),
                    );
                    if fm_nd(fmv) {
                        assert(!fm_ok(fmv));
                        assert(!simple_dice_ok(csome, ssome, fmv));
                    }
                }
                return Err(e);
            },
        };
        proof {
            lemma_extends_trans(old(rolls)@, t2, rolls@);
            lemma_appended_in_trans(
                old(rolls)@,
                t2,
                rolls@,
                dice_keys(node),
                fm_keys(fmv),
                dice_keys(node),
            );
        }
        let ghost t3 = rolls@;
        proof {
            if no_dice(cview) && no_dice(sview) {
                assert(count_of(csome) == li);
                assert(sides_of(ssome) == ri);
            }
        }
        if li < 0 {
            proof {
                if no_dice(cview) && no_dice(sview) {
                    assert(!simple_dice_ok(csome, ssome, fmv));
                }
            }
            return Err("dice count is negative".to_owned());
        }
        if ri == 0 {
            proof {
                if no_dice(cview) && no_dice(sview) {
                    assert(!simple_dice_ok(csome, ssome, fmv));
                }
            }
            return Err("Can't roll zero sided die".to_owned());
        }
        if ri < 0 {
            proof {
                if no_dice(cview) && no_dice(sview) {
                    assert(!simple_dice_ok(csome, ssome, fmv));
                }
            }
            return Err("die size is negative".to_owned());
        }
        let times: u64 = li as u64;
        let sides: u64 = ri as u64;
        if times >= usize::MAX as u64 {
            proof {
                if no_dice(cview) && no_dice(sview) {
                    assert(!simple_dice_ok(csome, ssome, fmv));
                }
            }
            return Err("dice roll too large".to_owned());
        }
        proof {
            lemma_div_check(times as int, sides as int, i64::MAX as int);
        }
        if times > (i64::MAX as u64) / sides {
            proof {
                if no_dice(cview) && no_dice(sview) {
                    assert((count_of(csome) as int) * (sides_of(ssome) as int) > i64::MAX);
                    assert(!simple_dice_ok(csome, ssome, fmv));
                }
            }
            return Err("dice roll too large".to_owned());
        }
        proof {
            if no_dice(cview) && no_dice(sview) && fm_nd(fmv) {
                assert(as_int(dcount(csome)) == Option::Some(li));
                assert(as_int(dsides(ssome)) == Option::Some(ri));
                assert(simple_dice_ok(csome, ssome, fmv));
            }
        }
        let roll = roll_die(times, sides, fm_int, rng);
        let total = roll.total;
        rolls.push((dp, roll));
        proof {
            assert(rolls@ == t3.push((dp, roll)));
            assert(rolls@.subrange(0, t3.len() as int) =~= t3);
            lemma_extends_trans(old(rolls)@, t3, rolls@);
            assert(trace_keys(rolls@).contains(dp)) by {
                assert(rolls@[t3.len() as int].0 == dp);
            }
            assert forall|k: u64|
                trace_keys(t3).contains(k) implies trace_keys(rolls@).contains(k) by {
                let i = choose|i: int| 0 <= i < t3.len() && (#[trigger] t3[i]).0 == k;
                assert(rolls@[i].0 == k);
            }
            assert(dice_keys(node).contains(dp));
            assert forall|i: int|
                old(rolls)@.len() <= i < rolls@.len() implies dice_keys(node).contains(
                (#[trigger] rolls@[i]).0) by {
                if i < t3.len() {
                    assert(rolls@[i] == t3[i]);
                } else {
                    assert(rolls@[i].0 == dp);
                }
            }
            lemma_extends_keys(t1, t2);
            lemma_extends_keys(t2, t3);
            assert(obox_keys(Option::Some(Box::new(cview))) == dice_keys(cview));
            assert(obox_keys(Option::Some(Box::new(sview))) == dice_keys(sview));
            assert(dice_keys(node) == obox_keys(Option::Some(Box::new(cview))).union(
                obox_keys(Option::Some(Box::new(sview))),
            ).union(fm_keys(fmv)).insert(dp));
            assert(dice_keys(node).subset_of(trace_keys(rolls@))) by {
                assert forall|k: u64|
                    dice_keys(node).contains(k) implies trace_keys(rolls@).contains(k) by {
                    if k == dp {
                    } else if dice_keys(cview).contains(k) {
                        assert(trace_keys(t1).contains(k));
                        assert(trace_keys(t3).contains(k));
                    } else if dice_keys(sview).contains(k) {
                        assert(trace_keys(t2).contains(k));
                        assert(trace_keys(t3).contains(k));
                    } else {
                        assert(fm_keys(fmv).contains(k));
                        assert(trace_keys(t3).contains(k));
                    }
                }
            }
        }
        Ok(Value::Int(total))
    }
}

} // verus!
