//! Evaluation values: 64-bit integers, and exact rationals for every
//! computation the conventional calculator semantics make non-integral
//! (division always yields a non-integer value, literals may carry a
//! decimal point).  Each operation has a spec function giving its exact
//! result, with overflow of the 64-bit components reported as an error
//! rather than wrapped.

use vstd::prelude::*;

verus! {

/// An exact rational: `num / den`, with `den` kept at least one.
#[derive(Debug, Clone, Copy)]
pub struct Rat {
    pub num: i64,
    pub den: i64,
}

/// A value: an integer, or a non-integral (rational) number — the same
/// split the calculator's semantics make between integer results and
/// fractional ones.
#[derive(Debug, Clone, Copy)]
pub enum Value {
    Float(Rat),
    Int(i64),
}

/// The rational's denominator is positive, so its sign lives in the
/// numerator.
pub open spec fn rat_wf(r: Rat) -> bool {
    r.den >= 1
}

pub open spec fn value_wf(v: Value) -> bool {
    match v {
        Value::Float(r) => rat_wf(r),
        Value::Int(_) => true,
    }
}

/// A value as the mathematical rational `(numerator, denominator)`.
pub open spec fn vrat(v: Value) -> (int, int) {
    match v {
        Value::Float(r) => (r.num as int, r.den as int),
        Value::Int(i) => (i as int, 1),
    }
}

pub open spec fn fits_i64(x: int) -> bool {
    i64::MIN <= x <= i64::MAX
}

impl Rat {
    /// A rational from its parts.
    pub fn new(num: i64, den: i64) -> (r: Rat)
        requires
            den >= 1,
        ensures
            r.num == num,
            r.den == den,
            rat_wf(r),
    {
        Rat { num, den }
    }

    /// The rational equal to an integer.
    pub fn from_int(num: i64) -> (r: Rat)
        ensures
            r.num == num,
            r.den == 1,
            rat_wf(r),
    {
        Rat { num, den: 1 }
    }
}

/// Two values are equal when they denote the same number; an integer and a
/// non-integral value never are (they are different results, as `15/3`
/// yielding a non-integer shows).
impl PartialEq for Value {
    fn eq(&self, other: &Value) -> (r: bool) {
        match (self, other) {
            (Value::Int(i), Value::Int(j)) => i == j,
            (Value::Float(a), Value::Float(b)) => mul128(a.num, b.den) == mul128(b.num, a.den),
            _ => false,
        }
    }
}

impl vstd::std_specs::cmp::PartialEqSpecImpl for Value {
    open spec fn obeys_eq_spec() -> bool {
        true
    }

    open spec fn eq_spec(&self, other: &Value) -> bool {
        match (*self, *other) {
            (Value::Int(i), Value::Int(j)) => i == j,
            (Value::Float(a), Value::Float(b)) => a.num * b.den == b.num * a.den,
            _ => false,
        }
    }
}

/// How an executable arithmetic outcome matches its spec: the exact value
/// on success, an error exactly when the spec gives none.
pub open spec fn ov_match(o: Option<Value>, r: Result<Value, String>) -> bool {
    match o {
        Option::Some(v) => r matches Ok(w) && w == v,
        Option::None => r is Err,
    }
}

/// Addition: integers stay integers; any rational operand makes the result
/// rational, computed exactly.
pub open spec fn add_spec(a: Value, b: Value) -> Option<Value> {
    match (a, b) {
        (Value::Int(i), Value::Int(j)) => if fits_i64(i + j) {
            Option::Some(Value::Int((i + j) as i64))
        } else {
            Option::None
        },
        _ => {
            let n = vrat(a).0 * vrat(b).1 + vrat(b).0 * vrat(a).1;
            let d = vrat(a).1 * vrat(b).1;
            if fits_i64(n) && fits_i64(d) {
                Option::Some(Value::Float(Rat { num: n as i64, den: d as i64 }))
            } else {
                Option::None
            }
        },
    }
}

/// Subtraction, like addition.
pub open spec fn sub_spec(a: Value, b: Value) -> Option<Value> {
    match (a, b) {
        (Value::Int(i), Value::Int(j)) => if fits_i64(i - j) {
            Option::Some(Value::Int((i - j) as i64))
        } else {
            Option::None
        },
        _ => {
            let n = vrat(a).0 * vrat(b).1 - vrat(b).0 * vrat(a).1;
            let d = vrat(a).1 * vrat(b).1;
            if fits_i64(n) && fits_i64(d) {
                Option::Some(Value::Float(Rat { num: n as i64, den: d as i64 }))
            } else {
                Option::None
            }
        },
    }
}

/// Multiplication, like addition.
pub open spec fn mul_spec(a: Value, b: Value) -> Option<Value> {
    match (a, b) {
        (Value::Int(i), Value::Int(j)) => if fits_i64(i * j) {
            Option::Some(Value::Int((i * j) as i64))
        } else {
            Option::None
        },
        _ => {
            let n = vrat(a).0 * vrat(b).0;
            let d = vrat(a).1 * vrat(b).1;
            if fits_i64(n) && fits_i64(d) {
                Option::Some(Value::Float(Rat { num: n as i64, den: d as i64 }))
            } else {
                Option::None
            }
        },
    }
}

/// Division always yields a rational, also for two integers; dividing by
/// zero is an error.
pub open spec fn div_spec(a: Value, b: Value) -> Option<Value> {
    let n0 = vrat(a).0 * vrat(b).1;
    let d0 = vrat(a).1 * vrat(b).0;
    if d0 == 0 {
        Option::None
    } else {
        let n = if d0 < 0 {
            -n0
        } else {
            n0
        };
        let d = if d0 < 0 {
            -d0
        } else {
            d0
        };
        if fits_i64(n) && fits_i64(d) {
            Option::Some(Value::Float(Rat { num: n as i64, den: d as i64 }))
        } else {
            Option::None
        }
    }
}

/// Integer division truncating toward zero, as the machine's `%`/`/` do.
pub open spec fn trunc_div(a: int, b: int) -> int
    recommends
        b != 0,
{
    let q = abs(a) / abs(b);
    if (a < 0) != (b < 0) {
        -q
    } else {
        q
    }
}

pub open spec fn abs(a: int) -> int {
    if a < 0 {
        -a
    } else {
        a
    }
}

/// The remainder with the dividend's sign, as the machine's `%` computes
/// it.
pub open spec fn trunc_rem(a: int, b: int) -> int
    recommends
        b != 0,
{
    a - b * trunc_div(a, b)
}

/// Remainder: two integers give the machine remainder; any rational
/// operand gives the exact rational remainder `a - b * trunc(a / b)`,
/// computed over a common denominator.
pub open spec fn rem_spec(a: Value, b: Value) -> Option<Value> {
    match (a, b) {
        (Value::Int(i), Value::Int(j)) => if j == 0 || (i == i64::MIN && j == -1) {
            Option::None
        } else {
            Option::Some(Value::Int(trunc_rem(i as int, j as int) as i64))
        },
        _ => {
            let n0 = vrat(a).0 * vrat(b).1;
            let m0 = vrat(b).0 * vrat(a).1;
            let d0 = vrat(a).1 * vrat(b).1;
            if m0 == 0 {
                Option::None
            } else {
                let n = trunc_rem(n0, m0);
                if fits_i64(n) && fits_i64(d0) {
                    Option::Some(Value::Float(Rat { num: n as i64, den: d0 as i64 }))
                } else {
                    Option::None
                }
            }
        },
    }
}

/// Negation.
pub open spec fn neg_spec(a: Value) -> Option<Value> {
    match a {
        Value::Int(i) => if i == i64::MIN {
            Option::None
        } else {
            Option::Some(Value::Int((-i) as i64))
        },
        Value::Float(r) => if r.num == i64::MIN {
            Option::None
        } else {
            Option::Some(Value::Float(Rat { num: (-r.num) as i64, den: r.den }))
        },
    }
}

/// Flooring: integers are unchanged; a rational becomes the greatest
/// integer not above it.
pub open spec fn floor_spec(a: Value) -> Value {
    match a {
        Value::Int(i) => Value::Int(i),
        Value::Float(r) => Value::Int(((r.num as int) / (r.den as int)) as i64),
    }
}

/// Exponentiation computed by checked repeated multiplication: one more
/// factor as long as every partial product fits.
pub open spec fn pow_fit(b: int, e: nat) -> Option<int>
    decreases e,
{
    if e == 0 {
        Option::Some(1)
    } else {
        match pow_fit(b, (e - 1) as nat) {
            Option::None => Option::None,
            Option::Some(p) => if fits_i64(p * b) {
                Option::Some(p * b)
            } else {
                Option::None
            },
        }
    }
}

/// Exponentiation: integer base and nonnegative integer exponent give an
/// integer; a rational base or an integral rational exponent gives the
/// exact rational power; a negative or non-integral exponent, or overflow,
/// is an error.
pub open spec fn pow_spec(a: Value, b: Value) -> Option<Value> {
    match (a, b) {
        (Value::Int(i), Value::Int(j)) => if j < 0 {
            Option::None
        } else {
            match pow_fit(i as int, j as nat) {
                Option::Some(p) => Option::Some(Value::Int(p as i64)),
                Option::None => Option::None,
            }
        },
        _ => {
            let nb = vrat(b).0;
            let db = vrat(b).1;
            if nb % db != 0 {
                Option::None
            } else {
                let j = nb / db;
                let na = vrat(a).0;
                let da = vrat(a).1;
                if j >= 0 {
                    match (pow_fit(na, j as nat), pow_fit(da, j as nat)) {
                        (Option::Some(pn), Option::Some(pd)) => Option::Some(
                            Value::Float(Rat { num: pn as i64, den: pd as i64 }),
                        ),
                        _ => Option::None,
                    }
                } else {
                    if na == 0 {
                        Option::None
                    } else {
                        match (pow_fit(da, (-j) as nat), pow_fit(na, (-j) as nat)) {
                            (Option::Some(pn), Option::Some(pd)) => if pd < 0 {
                                if fits_i64(-pn) && fits_i64(-pd) {
                                    Option::Some(
                                        Value::Float(Rat { num: (-pn) as i64, den: (-pd) as i64 }),
                                    )
                                } else {
                                    Option::None
                                }
                            } else {
                                Option::Some(Value::Float(Rat { num: pn as i64, den: pd as i64 }))
                            },
                            _ => Option::None,
                        }
                    }
                }
            }
        },
    }
}

/// The quotient and remainder facts tying the machine's truncated
/// division to the mathematical (Euclidean) one.
proof fn lemma_trunc_rem(a: int, b: int)
    requires
        b != 0,
    ensures
        trunc_rem(a, b) == if a < 0 {
            -(abs(a) % abs(b))
        } else {
            abs(a) % abs(b)
        },
        -abs(b) < trunc_rem(a, b) < abs(b),
{
    let ua = abs(a);
    let ub = abs(b);
    vstd::arithmetic::div_mod::lemma_fundamental_div_mod(ua, ub);
    vstd::arithmetic::div_mod::lemma_mod_bound(ua, ub);
    let q = ua / ub;
    let rm = ua % ub;
    if a >= 0 && b > 0 {
        assert(trunc_div(a, b) == q);
        assert(a - b * q == rm) by (nonlinear_arith)
            requires
                a == q * b + rm && a == ua && b == ub,
        ;
    } else if a >= 0 && b < 0 {
        assert(trunc_div(a, b) == -q);
        assert(a - b * (-q) == rm) by (nonlinear_arith)
            requires
                ua == q * ub + rm && a == ua && b == -ub,
        ;
    } else if a < 0 && b > 0 {
        assert(trunc_div(a, b) == -q);
        assert(a - b * (-q) == -rm) by (nonlinear_arith)
            requires
                ua == q * ub + rm && a == -ua && b == ub,
        ;
    } else {
        assert(trunc_div(a, b) == q);
        assert(a - b * q == -rm) by (nonlinear_arith)
            requires
                ua == q * ub + rm && a == -ua && b == -ub,
        ;
    }
}

/// The product of a 64-bit value and a positive 64-bit value stays well
/// inside the 128-bit range.
proof fn lemma_mul_bound(x: int, y: int)
    requires
        -0x8000000000000000 <= x <= 0x7fffffffffffffff,
        1 <= y <= 0x7fffffffffffffff,
    ensures
        -0x3fffffffffffffff8000000000000000 <= x * y <= 0x3fffffffffffffff8000000000000000,
{
    assert(-0x3fffffffffffffff8000000000000000 <= x * y <= 0x3fffffffffffffff8000000000000000)
        by (nonlinear_arith)
        requires
            -0x8000000000000000 <= x <= 0x7fffffffffffffff && 1 <= y <= 0x7fffffffffffffff,
    ;
}

/// The product of two 64-bit values fits the 128-bit range.
proof fn lemma_mul_bound2(x: int, y: int)
    requires
        -0x8000000000000000 <= x <= 0x7fffffffffffffff,
        -0x8000000000000000 <= y <= 0x7fffffffffffffff,
    ensures
        -0x40000000000000000000000000000000 <= x * y <= 0x40000000000000000000000000000000,
{
    assert(-0x40000000000000000000000000000000 <= x * y <= 0x40000000000000000000000000000000)
        by (nonlinear_arith)
        requires
            -0x8000000000000000 <= x <= 0x7fffffffffffffff && -0x8000000000000000 <= y
                <= 0x7fffffffffffffff,
    ;
}

/// A product of two positive denominators is positive.
proof fn lemma_den_pos(x: int, y: int)
    requires
        x >= 1,
        y >= 1,
    ensures
        x * y >= 1,
{
    assert(x * y >= 1) by (nonlinear_arith)
        requires
            x >= 1 && y >= 1,
    ;
}

/// A 64-bit product, widened so it cannot overflow.
fn mul128(x: i64, y: i64) -> (r: i128)
    ensures
        r as int == (x as int) * (y as int),
{
    proof {
        lemma_mul_bound2(x as int, y as int);
    }
    (x as i128) * (y as i128)
}

/// The truncated remainder is zero exactly when the divisor divides.
proof fn lemma_rem_zero_iff(a: int, b: int)
    requires
        b >= 1,
    ensures
        (trunc_rem(a, b) == 0) <==> (a % b == 0),
{
    lemma_trunc_rem(a, b);
    vstd::arithmetic::div_mod::lemma_fundamental_div_mod(abs(a), b);
    vstd::arithmetic::div_mod::lemma_fundamental_div_mod(a, b);
    let k = abs(a) / b;
    let q = a / b;
    if abs(a) % b == 0 {
        if a >= 0 {
            vstd::arithmetic::div_mod::lemma_mod_multiples_basic(k, b);
        } else {
            assert(a == (-k) * b) by (nonlinear_arith)
                requires
                    abs(a) == k * b && a == -abs(a),
            ;
            vstd::arithmetic::div_mod::lemma_mod_multiples_basic(-k, b);
        }
    }
    if a % b == 0 {
        if a >= 0 {
        } else {
            assert(abs(a) == (-q) * b) by (nonlinear_arith)
                requires
                    a == q * b && abs(a) == -a,
            ;
            vstd::arithmetic::div_mod::lemma_mod_multiples_basic(-q, b);
        }
    }
}

/// The machine remainder of two medium-sized 128-bit integers.
fn trunc_rem_i128(a: i128, b: i128) -> (r: i128)
    requires
        b != 0,
        -0x7fffffffffffffffffffffffffffffff <= a,
        -0x7fffffffffffffffffffffffffffffff <= b,
    ensures
        r == trunc_rem(a as int, b as int),
        -abs(b as int) < r < abs(b as int),
{
    let ua: u128 = if a < 0 {
        (-a) as u128
    } else {
        a as u128
    };
    let ub: u128 = if b < 0 {
        (-b) as u128
    } else {
        b as u128
    };
    let rm: u128 = ua % ub;
    proof {
        lemma_trunc_rem(a as int, b as int);
    }
    if a < 0 {
        -(rm as i128)
    } else {
        rm as i128
    }
}

/// The floor of `n / d` for a positive denominator.
fn floor_div_i64(n: i64, d: i64) -> (r: i64)
    requires
        d >= 1,
    ensures
        r == (n as int) / (d as int),
{
    if n >= 0 {
        let q: u64 = (n as u64) / (d as u64);
        q as i64
    } else {
        let un: u128 = (-(n as i128)) as u128;
        let ud: u128 = d as u128;
        let q0: u128 = un / ud;
        let rm: u128 = un % ud;
        proof {
            vstd::arithmetic::div_mod::lemma_fundamental_div_mod(un as int, ud as int);
            vstd::arithmetic::div_mod::lemma_mod_bound(un as int, ud as int);
            vstd::arithmetic::div_mod::lemma_fundamental_div_mod(n as int, d as int);
            vstd::arithmetic::div_mod::lemma_mod_bound(n as int, d as int);
            let fq = (n as int) / (d as int);
            let fr = (n as int) % (d as int);
            let q0i = q0 as int;
            let rmi = rm as int;
            let di = d as int;
            let uni = un as int;
            assert(q0i <= uni) by (nonlinear_arith)
                requires
                    uni == di * q0i + rmi && 0 <= rmi && di >= 1 && q0i >= 0,
            ;
            if rm == 0 {
                assert(fq == -q0i) by (nonlinear_arith)
                    requires
                        uni == di * q0i + rmi && rmi == 0 && -uni == di * fq + fr && 0 <= fr < di
                            && di >= 1,
                ;
            } else {
                assert(di >= 2);
                assert(fq == -q0i - 1) by (nonlinear_arith)
                    requires
                        uni == di * q0i + rmi && 0 < rmi < di && -uni == di * fq + fr && 0 <= fr
                            < di && di >= 1,
                ;
                assert(2 * q0i <= uni) by (nonlinear_arith)
                    requires
                        uni == di * q0i + rmi && 0 <= rmi && di >= 2 && q0i >= 0,
                ;
            }
        }
        if rm == 0 {
            (-(q0 as i128)) as i64
        } else {
            ((-(q0 as i128)) - 1) as i64
        }
    }
}

fn err_text(msg: &str) -> (r: Result<Value, String>)
    ensures
        r is Err,
{
    Err(msg.to_owned())
}

/// Addition over values, exactly as [`add_spec`] says.
pub fn v_add(a: Value, b: Value) -> (r: Result<Value, String>)
    requires
        value_wf(a),
        value_wf(b),
    ensures
        ov_match(add_spec(a, b), r),
        r matches Ok(v) ==> value_wf(v),
{
    match (a, b) {
        (Value::Int(i), Value::Int(j)) => {
            let s: i128 = i as i128 + j as i128;
            if s >= i64::MIN as i128 && s <= i64::MAX as i128 {
                Ok(Value::Int(s as i64))
            } else {
                err_text("arithmetic overflow")
            }
        },
        _ => {
            let ra = rat_of(a);
            let rb = rat_of(b);
            proof {
                lemma_mul_bound(ra.num as int, rb.den as int);
                lemma_mul_bound(rb.num as int, ra.den as int);
                lemma_den_pos(ra.den as int, rb.den as int);
            }
            let n: i128 = mul128(ra.num, rb.den) + mul128(rb.num, ra.den);
            let d: i128 = mul128(ra.den, rb.den);
            if n >= i64::MIN as i128 && n <= i64::MAX as i128 && d <= i64::MAX as i128 {
                Ok(Value::Float(Rat { num: n as i64, den: d as i64 }))
            } else {
                err_text("arithmetic overflow")
            }
        },
    }
}

/// Subtraction over values, exactly as [`sub_spec`] says.
pub fn v_sub(a: Value, b: Value) -> (r: Result<Value, String>)
    requires
        value_wf(a),
        value_wf(b),
    ensures
        ov_match(sub_spec(a, b), r),
        r matches Ok(v) ==> value_wf(v),
{
    match (a, b) {
        (Value::Int(i), Value::Int(j)) => {
            let s: i128 = i as i128 - j as i128;
            if s >= i64::MIN as i128 && s <= i64::MAX as i128 {
                Ok(Value::Int(s as i64))
            } else {
                err_text("arithmetic overflow")
            }
        },
        _ => {
            let ra = rat_of(a);
            let rb = rat_of(b);
            proof {
                lemma_mul_bound(ra.num as int, rb.den as int);
                lemma_mul_bound(rb.num as int, ra.den as int);
                lemma_den_pos(ra.den as int, rb.den as int);
            }
            let n: i128 = mul128(ra.num, rb.den) - mul128(rb.num, ra.den);
            let d: i128 = mul128(ra.den, rb.den);
            if n >= i64::MIN as i128 && n <= i64::MAX as i128 && d <= i64::MAX as i128 {
                Ok(Value::Float(Rat { num: n as i64, den: d as i64 }))
            } else {
                err_text("arithmetic overflow")
            }
        },
    }
}

/// Multiplication over values, exactly as [`mul_spec`] says.
pub fn v_mul(a: Value, b: Value) -> (r: Result<Value, String>)
    requires
        value_wf(a),
        value_wf(b),
    ensures
        ov_match(mul_spec(a, b), r),
        r matches Ok(v) ==> value_wf(v),
{
    match (a, b) {
        (Value::Int(i), Value::Int(j)) => {
            let s: i128 = mul128(i, j);
            if s >= i64::MIN as i128 && s <= i64::MAX as i128 {
                Ok(Value::Int(s as i64))
            } else {
                err_text("arithmetic overflow")
            }
        },
        _ => {
            let ra = rat_of(a);
            let rb = rat_of(b);
            proof {
                lemma_den_pos(ra.den as int, rb.den as int);
            }
            let n: i128 = mul128(ra.num, rb.num);
            let d: i128 = mul128(ra.den, rb.den);
            if n >= i64::MIN as i128 && n <= i64::MAX as i128 && d <= i64::MAX as i128 {
                Ok(Value::Float(Rat { num: n as i64, den: d as i64 }))
            } else {
                err_text("arithmetic overflow")
            }
        },
    }
}

/// Division over values, exactly as [`div_spec`] says: always rational,
/// never by zero.
pub fn v_div(a: Value, b: Value) -> (r: Result<Value, String>)
    requires
        value_wf(a),
        value_wf(b),
    ensures
        ov_match(div_spec(a, b), r),
        r matches Ok(v) ==> value_wf(v),
{
    let ra = rat_of(a);
    let rb = rat_of(b);
    proof {
        lemma_mul_bound(ra.num as int, rb.den as int);
        lemma_mul_bound(rb.num as int, ra.den as int);
    }
    let n0: i128 = mul128(ra.num, rb.den);
    let d0: i128 = mul128(ra.den, rb.num);
    if d0 == 0 {
        return err_text("division by zero");
    }
    let n: i128 = if d0 < 0 {
        -n0
    } else {
        n0
    };
    let d: i128 = if d0 < 0 {
        -d0
    } else {
        d0
    };
    if n >= i64::MIN as i128 && n <= i64::MAX as i128 && d <= i64::MAX as i128 {
        Ok(Value::Float(Rat { num: n as i64, den: d as i64 }))
    } else {
        err_text("arithmetic overflow")
    }
}

/// Remainder over values, exactly as [`rem_spec`] says.
pub fn v_rem(a: Value, b: Value) -> (r: Result<Value, String>)
    requires
        value_wf(a),
        value_wf(b),
    ensures
        ov_match(rem_spec(a, b), r),
        r matches Ok(v) ==> value_wf(v),
{
    match (a, b) {
        (Value::Int(i), Value::Int(j)) => {
            if j == 0 || (i == i64::MIN && j == -1) {
                return err_text("remainder of division by zero");
            }
            let rm: i128 = trunc_rem_i128(i as i128, j as i128);
            proof {
                lemma_trunc_rem(i as int, j as int);
            }
            Ok(Value::Int(rm as i64))
        },
        _ => {
            let ra = rat_of(a);
            let rb = rat_of(b);
            proof {
                lemma_mul_bound(ra.num as int, rb.den as int);
                lemma_mul_bound(rb.num as int, ra.den as int);
                lemma_den_pos(ra.den as int, rb.den as int);
            }
            let n0: i128 = mul128(ra.num, rb.den);
            let m0: i128 = mul128(rb.num, ra.den);
            let d0: i128 = mul128(ra.den, rb.den);
            if m0 == 0 {
                return err_text("remainder of division by zero");
            }
            let n: i128 = trunc_rem_i128(n0, m0);
            if n >= i64::MIN as i128 && n <= i64::MAX as i128 && d0 <= i64::MAX as i128 {
                Ok(Value::Float(Rat { num: n as i64, den: d0 as i64 }))
            } else {
                err_text("arithmetic overflow")
            }
        },
    }
}

/// Negation over values, exactly as [`neg_spec`] says.
pub fn v_neg(a: Value) -> (r: Result<Value, String>)
    requires
        value_wf(a),
    ensures
        ov_match(neg_spec(a), r),
        r matches Ok(v) ==> value_wf(v),
{
    match a {
        Value::Int(i) => {
            if i == i64::MIN {
                return err_text("arithmetic overflow");
            }
            Ok(Value::Int(-i))
        },
        Value::Float(r0) => {
            if r0.num == i64::MIN {
                return err_text("arithmetic overflow");
            }
            Ok(Value::Float(Rat { num: -r0.num, den: r0.den }))
        },
    }
}

/// Flooring a value, exactly as [`floor_spec`] says; a rational always
/// floors to a representable integer.
pub fn v_floor(a: Value) -> (r: Value)
    requires
        value_wf(a),
    ensures
        r == floor_spec(a),
        value_wf(r),
{
    match a {
        Value::Int(i) => Value::Int(i),
        Value::Float(r0) => {
            proof {
                vstd::arithmetic::div_mod::lemma_fundamental_div_mod(
                    r0.num as int,
                    r0.den as int,
                );
                vstd::arithmetic::div_mod::lemma_mod_bound(r0.num as int, r0.den as int);
                let q = (r0.num as int) / (r0.den as int);
                assert(fits_i64(q)) by (nonlinear_arith)
                    requires
                        r0.num == q * r0.den + (r0.num as int) % (r0.den as int) && 0 <= (r0.num
                            as int) % (r0.den as int) < r0.den && r0.den >= 1 && i64::MIN <= r0.num
                            <= i64::MAX,
                ;
            }
            Value::Int(floor_div_i64(r0.num, r0.den))
        },
    }
}

/// The value as an explicit rational.
fn rat_of(v: Value) -> (r: Rat)
    requires
        value_wf(v),
    ensures
        (r.num as int, r.den as int) == vrat(v),
        rat_wf(r),
{
    match v {
        Value::Float(r0) => r0,
        Value::Int(i) => Rat { num: i, den: 1 },
    }
}

/// Checked integer power: multiplies one factor at a time, failing the
/// moment a partial product leaves the 64-bit range, as [`pow_fit`] says.
fn pow_i64(b: i64, e: u64) -> (r: Result<i64, ()>)
    ensures
        match r {
            Ok(p) => pow_fit(b as int, e as nat) == Option::Some(p as int),
            Err(_) => pow_fit(b as int, e as nat) is None,
        },
{
    let mut acc: i64 = 1;
    let mut i: u64 = 0;
    while i < e
        invariant
            i <= e,
            pow_fit(b as int, i as nat) == Option::Some(acc as int),
        decreases e - i,
    {
        let p: i128 = mul128(acc, b);
        if p < i64::MIN as i128 || p > i64::MAX as i128 {
            proof {
                lemma_pow_fit_stuck(b as int, (i + 1) as nat, e as nat);
            }
            return Err(());
        }
        acc = p as i64;
        i = i + 1;
    }
    Ok(acc)
}

/// Once a partial power fails to fit, every later one fails too.
proof fn lemma_pow_fit_stuck(b: int, e0: nat, e: nat)
    requires
        pow_fit(b, e0) is None,
        e0 <= e,
    ensures
        pow_fit(b, e) is None,
    decreases e - e0,
{
    if e > e0 {
        lemma_pow_fit_stuck(b, e0, (e - 1) as nat);
    }
}

/// Exponentiation over values, exactly as [`pow_spec`] says.
pub fn v_pow(a: Value, b: Value) -> (r: Result<Value, String>)
    requires
        value_wf(a),
        value_wf(b),
    ensures
        ov_match(pow_spec(a, b), r),
        r matches Ok(v) ==> value_wf(v),
{
    match (a, b) {
        (Value::Int(i), Value::Int(j)) => {
            if j < 0 {
                return err_text("negative exponent");
            }
            match pow_i64(i, j as u64) {
                Ok(p) => Ok(Value::Int(p)),
                Err(_) => err_text("arithmetic overflow"),
            }
        },
        _ => {
            let ra = rat_of(a);
            let rb = rat_of(b);
            let rm: i128 = trunc_rem_i128(rb.num as i128, rb.den as i128);
            proof {
                lemma_rem_zero_iff(rb.num as int, rb.den as int);
            }
            if rm != 0 {
                return err_text("exponent is not an integer");
            }
            let j: i64 = floor_div_i64(rb.num, rb.den);
            if j >= 0 {
                let pn = match pow_i64(ra.num, j as u64) {
                    Ok(p) => p,
                    Err(_) => {
                        return err_text("arithmetic overflow");
                    },
                };
                let pd = match pow_i64(ra.den, j as u64) {
                    Ok(p) => p,
                    Err(_) => {
                        return err_text("arithmetic overflow");
                    },
                };
                proof {
                    lemma_pow_fit_pos(ra.den as int, j as nat);
                }
                Ok(Value::Float(Rat { num: pn, den: pd }))
            } else {
                if ra.num == 0 {
                    return err_text("zero base with negative exponent");
                }
                let e: u64 = (-(j as i128)) as u64;
                let pn = match pow_i64(ra.den, e) {
                    Ok(p) => p,
                    Err(_) => {
                        return err_text("arithmetic overflow");
                    },
                };
                let pd = match pow_i64(ra.num, e) {
                    Ok(p) => p,
                    Err(_) => {
                        return err_text("arithmetic overflow");
                    },
                };
                if pd < 0 {
                    if pn == i64::MIN || pd == i64::MIN {
                        return err_text("arithmetic overflow");
                    }
                    Ok(Value::Float(Rat { num: -pn, den: -pd }))
                } else {
                    proof {
                        lemma_pow_fit_nonzero(ra.num as int, e as nat);
                    }
                    Ok(Value::Float(Rat { num: pn, den: pd }))
                }
            }
        },
    }
}

/// A positive base keeps every partial power positive.
proof fn lemma_pow_fit_pos(b: int, e: nat)
    requires
        b >= 1,
    ensures
        pow_fit(b, e) matches Option::Some(p) ==> p >= 1,
    decreases e,
{
    if e > 0 {
        lemma_pow_fit_pos(b, (e - 1) as nat);
        match pow_fit(b, (e - 1) as nat) {
            Option::Some(q) => {
                assert(q * b >= 1) by (nonlinear_arith)
                    requires
                        q >= 1 && b >= 1,
                ;
            },
            Option::None => {},
        }
    }
}

/// A nonzero base keeps every partial power nonzero.
proof fn lemma_pow_fit_nonzero(b: int, e: nat)
    requires
        b != 0,
    ensures
        pow_fit(b, e) matches Option::Some(p) ==> p != 0,
    decreases e,
{
    if e > 0 {
        lemma_pow_fit_nonzero(b, (e - 1) as nat);
        match pow_fit(b, (e - 1) as nat) {
            Option::Some(q) => {
                if q != 0 {
                    assert(q * b != 0) by (nonlinear_arith)
                        requires
                            q != 0 && b != 0,
                    ;
                }
            },
            Option::None => {},
        }
    }
}

} // verus!
