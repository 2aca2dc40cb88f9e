//! The closed set of binary operators a value node may fold over its
//! parents, together with their exact integer semantics.
//!
//! Every operator is a total function over `i64` scalars: the
//! arithmetic operators saturate at the `i64` bounds, division by zero
//! yields zero, power and root are defined over saturating iterated
//! multiplication, and logarithm is the integer logarithm — so no
//! operator can panic or overflow.

use vstd::prelude::*;

verus! {

use vstd::arithmetic::div_mod::{
    lemma_div_pos_is_pos,
    lemma_div_nonincreasing,
    lemma_div_is_strictly_smaller,
    lemma_div_non_zero,
};
use vstd::arithmetic::mul::{lemma_mul_inequality, lemma_mul_nonnegative};

/// The operators a node may declare against a parent, applied
/// left-to-right as `(current, parent_value) -> new_current`.
#[derive(Clone, Copy, Debug, PartialEq, Eq, Structural)]
pub enum Operator {
    Assign,
    Max,
    Min,
    Add,
    Subt,
    Mult,
    Div,
    Pow,
    Root,
    Log,
}

/// Clamp a mathematical integer into the representable `i64` range.
pub open spec fn sat64(v: int) -> int {
    if v > i64::MAX as int {
        i64::MAX as int
    } else if v < i64::MIN as int {
        i64::MIN as int
    } else {
        v
    }
}

/// Truncating (round-toward-zero) integer division, as the `/` operator
/// of the executable integers computes it.
pub open spec fn div_trunc(x: int, d: int) -> int
    recommends
        d != 0,
{
    if x == 0 {
        0
    } else if x > 0 && d > 0 {
        x / d
    } else if x < 0 && d < 0 {
        (x * -1) / (d * -1)
    } else if x < 0 {
        ((x * -1) / d) * -1
    } else {
        (x / (d * -1)) * -1
    }
}

/// Iterated saturating multiplication: the value reached by starting at 1
/// and folding `e` saturating multiplications by `x`.
pub open spec fn pow_sat(x: int, e: nat) -> int
    decreases e,
{
    if e == 0 {
        1
    } else {
        sat64(pow_sat(x, (e - 1) as nat) * x)
    }
}

/// The largest candidate in `[0, b]` whose `e`-th saturating power does
/// not exceed `x` (0 if there is none).
pub open spec fn iroot_upto(x: int, e: nat, b: int) -> int
    decreases b,
{
    if b <= 0 {
        0
    } else if pow_sat(b, e) <= x {
        b
    } else {
        iroot_upto(x, e, b - 1)
    }
}

/// The integer `e`-th root of a non-negative `x`: the largest `r` with
/// `pow_sat(r, e) <= x`.
pub open spec fn iroot(x: int, e: nat) -> int {
    iroot_upto(x, e, x)
}

/// What one operator application yields.  This is the reference semantics
/// every executable operator is proved against.
pub open spec fn apply_op(op: Operator, x: int, y: int) -> int {
    match op {
        Operator::Assign => y,
        Operator::Max => if x >= y { x } else { y },
        Operator::Min => if x <= y { x } else { y },
        Operator::Add => sat64(x + y),
        Operator::Subt => sat64(x - y),
        Operator::Mult => sat64(x * y),
        Operator::Div => if y == 0 { 0 } else { sat64(div_trunc(x, y)) },
        Operator::Pow => if y < 0 { 0 } else { pow_sat(x, y as nat) },
        Operator::Root => if y <= 0 || x < 0 { 0 } else { iroot(x, y as nat) },
        Operator::Log => if x <= 0 || y <= 1 {
            0
        } else {
            vstd::arithmetic::logarithm::log(y, x)
        },
    }
}

/// The numeric code each operator name stands for, `10` for a name
/// outside the fixed set.
pub open spec fn func_code(name: Seq<char>) -> u8 {
    if name == "SET"@ {
        0
    } else if name == "MAX"@ {
        1
    } else if name == "MIN"@ {
        2
    } else if name == "ADD"@ {
        3
    } else if name == "SUBT"@ {
        4
    } else if name == "MULT"@ {
        5
    } else if name == "DIV"@ {
        6
    } else if name == "POW"@ {
        7
    } else if name == "ROOT"@ {
        8
    } else if name == "LOG"@ {
        9
    } else {
        10
    }
}

fn str_eq_lit(name: &String, lit: &str) -> (r: bool)
    ensures
        r == (name@ == lit@),
{
    let s: String = lit.to_string();
    proof {
        vstd::string::to_string_from_display_ensures_for_str(lit, s);
    }
    *name == s
}

/// Resolve an operator name to its numeric code; an unknown name yields
/// the out-of-range code 10, which no operator carries.
pub fn get_func(name: &String) -> (code: u8)
    ensures
        code == func_code(name@),
{
    if str_eq_lit(name, "SET") {
        0
    } else if str_eq_lit(name, "MAX") {
        1
    } else if str_eq_lit(name, "MIN") {
        2
    } else if str_eq_lit(name, "ADD") {
        3
    } else if str_eq_lit(name, "SUBT") {
        4
    } else if str_eq_lit(name, "MULT") {
        5
    } else if str_eq_lit(name, "DIV") {
        6
    } else if str_eq_lit(name, "POW") {
        7
    } else if str_eq_lit(name, "ROOT") {
        8
    } else if str_eq_lit(name, "LOG") {
        9
    } else {
        10
    }
}

/// The operator a numeric code stands for, if any.
pub open spec fn operator_of_code(code: u8) -> Option<Operator> {
    if code == 0 {
        Some(Operator::Assign)
    } else if code == 1 {
        Some(Operator::Max)
    } else if code == 2 {
        Some(Operator::Min)
    } else if code == 3 {
        Some(Operator::Add)
    } else if code == 4 {
        Some(Operator::Subt)
    } else if code == 5 {
        Some(Operator::Mult)
    } else if code == 6 {
        Some(Operator::Div)
    } else if code == 7 {
        Some(Operator::Pow)
    } else if code == 8 {
        Some(Operator::Root)
    } else if code == 9 {
        Some(Operator::Log)
    } else {
        None
    }
}

impl Operator {
    /// Decode a numeric operator code; an unknown code is a
    /// configuration error, not a silent no-op.
    pub fn from_code(code: u8) -> (r: Option<Operator>)
        ensures
            r == operator_of_code(code),
    {
        if code == 0 {
            Some(Operator::Assign)
        } else if code == 1 {
            Some(Operator::Max)
        } else if code == 2 {
            Some(Operator::Min)
        } else if code == 3 {
            Some(Operator::Add)
        } else if code == 4 {
            Some(Operator::Subt)
        } else if code == 5 {
            Some(Operator::Mult)
        } else if code == 6 {
            Some(Operator::Div)
        } else if code == 7 {
            Some(Operator::Pow)
        } else if code == 8 {
            Some(Operator::Root)
        } else if code == 9 {
            Some(Operator::Log)
        } else {
            None
        }
    }
}

pub(crate) fn sat_add(x: i64, y: i64) -> (r: i64)
    ensures
        r as int == sat64(x as int + y as int),
{
    match x.checked_add(y) {
        Some(v) => v,
        None => if x > 0 {
            i64::MAX
        } else {
            i64::MIN
        },
    }
}

fn sat_sub(x: i64, y: i64) -> (r: i64)
    ensures
        r as int == sat64(x as int - y as int),
{
    match x.checked_sub(y) {
        Some(v) => v,
        None => if y < 0 {
            i64::MAX
        } else {
            i64::MIN
        },
    }
}

fn sat_mul(x: i64, y: i64) -> (r: i64)
    ensures
        r as int == sat64(x as int * y as int),
{
    match x.checked_mul(y) {
        Some(v) => v,
        None => {
            proof {
                assert(x as int * y as int != 0);
                assert(x != 0 && y != 0) by (nonlinear_arith)
                    requires x as int * y as int != 0;
            }
            if (x > 0) == (y > 0) {
                proof {
                    let xi = x as int;
                    let yi = y as int;
                    if xi > 0 && yi > 0 {
                        assert(xi * yi > 0) by (nonlinear_arith)
                            requires xi > 0 && yi > 0;
                    } else {
                        assert(xi * yi > 0) by (nonlinear_arith)
                            requires xi < 0 && yi < 0;
                    }
                }
                i64::MAX
            } else {
                proof {
                    let xi = x as int;
                    let yi = y as int;
                    if xi > 0 {
                        assert(xi * yi < 0) by (nonlinear_arith)
                            requires xi > 0 && yi < 0;
                    } else {
                        assert(xi * yi < 0) by (nonlinear_arith)
                            requires xi < 0 && yi > 0;
                    }
                }
                i64::MIN
            }
        },
    }
}

fn div_sat(x: i64, y: i64) -> (r: i64)
    ensures
        r as int == apply_op(Operator::Div, x as int, y as int),
{
    if y == 0 {
        return 0;
    }
    match x.checked_div(y) {
        Some(q) => q,
        None => {
            proof {
                let xi = x as int;
                let yi = y as int;
                if xi < 0 && yi > 0 {
                    lemma_div_nonincreasing(xi * -1, yi);
                    lemma_div_pos_is_pos(xi * -1, yi);
                }
                if xi > 0 && yi < 0 {
                    lemma_div_nonincreasing(xi, yi * -1);
                    lemma_div_pos_is_pos(xi, yi * -1);
                }
                if xi > 0 && yi > 0 {
                    lemma_div_pos_is_pos(xi, yi);
                }
                if xi < 0 && yi < 0 {
                    lemma_div_pos_is_pos(xi * -1, yi * -1);
                }
            }
            i64::MAX
        },
    }
}

proof fn lemma_pow_sat_fixpoint(x: int, k: nat, e: nat, a: int)
    requires
        k <= e,
        pow_sat(x, k) == a,
        sat64(a * x) == a,
    ensures
        pow_sat(x, e) == a,
    decreases e - k,
{
    if e > k {
        lemma_pow_sat_fixpoint(x, (k + 1) as nat, e, a);
    }
}

proof fn lemma_pow_sat_nonneg(x: int, e: nat)
    requires
        x >= 0,
    ensures
        0 <= pow_sat(x, e) <= i64::MAX as int,
    decreases e,
{
    if e > 0 {
        lemma_pow_sat_nonneg(x, (e - 1) as nat);
        lemma_mul_nonnegative(pow_sat(x, (e - 1) as nat), x);
    }
}

proof fn lemma_pow_sat_mono(a: int, b: int, e: nat)
    requires
        0 <= a <= b,
    ensures
        pow_sat(a, e) <= pow_sat(b, e),
    decreases e,
{
    if e > 0 {
        let e1 = (e - 1) as nat;
        lemma_pow_sat_mono(a, b, e1);
        lemma_pow_sat_nonneg(a, e1);
        lemma_pow_sat_nonneg(b, e1);
        lemma_mul_inequality(pow_sat(a, e1), pow_sat(b, e1), a);
        lemma_mul_inequality(a, b, pow_sat(b, e1));
        assert(pow_sat(b, e1) * a == a * pow_sat(b, e1)) by (nonlinear_arith);
        assert(pow_sat(b, e1) * b == b * pow_sat(b, e1)) by (nonlinear_arith);
    }
}

proof fn lemma_iroot_upto_agrees(x: int, e: nat, b: int, r: int)
    requires
        0 <= r <= b <= x,
        pow_sat(r, e) <= x,
        forall|s: int| r < s <= b ==> pow_sat(s, e) > x,
    ensures
        iroot_upto(x, e, b) == r,
    decreases b,
{
    if b == r {
        if b <= 0 {
        } else {
            assert(pow_sat(b, e) <= x);
        }
    } else {
        assert(pow_sat(b, e) > x);
        lemma_iroot_upto_agrees(x, e, b - 1, r);
    }
}

/// `iroot(x, e)` is exactly characterised by bracketing powers.
proof fn lemma_iroot_of_bracket(x: int, e: nat, r: int)
    requires
        e >= 1,
        0 <= r <= x,
        pow_sat(r, e) <= x,
        r == x || pow_sat(r + 1, e) > x,
    ensures
        iroot(x, e) == r,
{
    assert forall|s: int| r < s <= x implies pow_sat(s, e) > x by {
        lemma_pow_sat_mono(r + 1, s, e);
    }
    lemma_iroot_upto_agrees(x, e, x, r);
}

fn pow_op(x: i64, y: i64) -> (r: i64)
    ensures
        r as int == apply_op(Operator::Pow, x as int, y as int),
{
    if y < 0 {
        return 0;
    }
    let mut acc: i64 = 1;
    let mut k: i64 = 0;
    while k < y
        invariant
            0 <= k <= y,
            acc as int == pow_sat(x as int, k as nat),
        decreases y - k,
    {
        let next = sat_mul(acc, x);
        if next == acc {
            proof {
                lemma_pow_sat_fixpoint(x as int, k as nat, y as nat, acc as int);
            }
            return acc;
        }
        acc = next;
        k = k + 1;
    }
    acc
}

fn root_op(x: i64, y: i64) -> (r: i64)
    ensures
        r as int == apply_op(Operator::Root, x as int, y as int),
{
    if y <= 0 || x < 0 {
        return 0;
    }
    let mut lo: i64 = 0;
    let mut hi: i64 = x;
    proof {
        lemma_pow_sat_nonneg(0, y as nat);
        assert(pow_sat(0, y as nat) <= x as int) by {
            assert(sat64(pow_sat(0, (y - 1) as nat) * 0) == 0) by (nonlinear_arith);
        }
    }
    while lo < hi
        invariant
            0 <= lo <= hi <= x,
            y >= 1,
            pow_sat(lo as int, y as nat) <= x as int,
            hi == x || pow_sat(hi as int + 1, y as nat) > x as int,
        decreases hi - lo,
    {
        let gap: u64 = (hi - lo) as u64 + 1;
        let half: u64 = gap / 2;
        proof {
            lemma_div_non_zero(gap as int, 2);
            lemma_div_is_strictly_smaller(gap as int, 2);
        }
        let mid: i64 = lo + half as i64;
        let pm = pow_op(mid, y);
        if pm <= x {
            lo = mid;
        } else {
            hi = mid - 1;
        }
    }
    proof {
        lemma_iroot_of_bracket(x as int, y as nat, lo as int);
    }
    lo
}

fn log_op(x: i64, y: i64) -> (r: i64)
    ensures
        r as int == apply_op(Operator::Log, x as int, y as int),
{
    if x <= 0 || y <= 1 {
        return 0;
    }
    let yy: u64 = y as u64;
    let mut n: u64 = x as u64;
    let mut e: i64 = 0;
    proof {
        vstd::arithmetic::logarithm::lemma_log_nonnegative(y as int, x as int);
    }
    while n >= yy
        invariant
            y >= 2,
            yy as int == y as int,
            n >= 0,
            0 <= e,
            e + n <= x,
            vstd::arithmetic::logarithm::log(y as int, x as int) == e + vstd::arithmetic::logarithm::log(
                y as int,
                n as int,
            ),
        decreases n,
    {
        proof {
            reveal(vstd::arithmetic::logarithm::log);
            lemma_div_pos_is_pos(n as int, yy as int);
            lemma_div_is_strictly_smaller(n as int, yy as int);
            assert(vstd::arithmetic::logarithm::log(y as int, n as int) == 1
                + vstd::arithmetic::logarithm::log(y as int, n as int / yy as int));
        }
        n = n / yy;
        e = e + 1;
    }
    proof {
        reveal(vstd::arithmetic::logarithm::log);
        assert(vstd::arithmetic::logarithm::log(y as int, n as int) == 0);
    }
    e
}

/// Apply one operator to the current folded value `x` and a parent's
/// value `y`, exactly as [`apply_op`] states.
pub fn apply_operator(op: Operator, x: i64, y: i64) -> (r: i64)
    ensures
        r as int == apply_op(op, x as int, y as int),
{
    match op {
        Operator::Assign => y,
        Operator::Max => if x >= y {
            x
        } else {
            y
        },
        Operator::Min => if x <= y {
            x
        } else {
            y
        },
        Operator::Add => sat_add(x, y),
        Operator::Subt => sat_sub(x, y),
        Operator::Mult => sat_mul(x, y),
        Operator::Div => div_sat(x, y),
        Operator::Pow => pow_op(x, y),
        Operator::Root => root_op(x, y),
        Operator::Log => log_op(x, y),
    }
}

} // verus!
