use vstd::prelude::*;

verus! {

/// Why an operator's server refuses a request.
#[derive(Debug, PartialEq, Eq, Clone, Copy, Structural)]
pub enum OpError {
    /// A division by zero.
    ZeroDenominator,
}

impl OpError {
    pub fn message(&self) -> (r: &'static str)
        ensures
            r@ == "denominator cannot be 0"@,
    {
        match self {
            OpError::ZeroDenominator => "denominator cannot be 0",
        }
    }
}

/// Integer division that rounds toward zero.
pub open spec fn div_toward_zero(x: int, d: int) -> int {
    if x == 0 {
        0
    } else if x > 0 && d > 0 {
        x / d
    } else if x < 0 && d < 0 {
        (x * -1) / (d * -1)
    } else if x < 0 {
        ((x * -1) / d) * -1
    } else {
        (x / (d * -1)) * -1
    }
}

proof fn lemma_div_toward_zero_bound(x: int, d: int)
    requires
        d != 0,
    ensures
        x >= 0 && d > 0 ==> 0 <= div_toward_zero(x, d) <= x,
        x >= 0 && d < 0 ==> -x <= div_toward_zero(x, d) <= 0,
        x < 0 && d > 0 ==> x <= div_toward_zero(x, d) <= 0,
        x < 0 && d < 0 ==> 0 <= div_toward_zero(x, d) <= -x,
        x < 0 && d < -1 ==> 2 * div_toward_zero(x, d) <= -x,
{
    assert(forall|a: int, b: int| a >= 0 && b > 0 ==> 0 <= #[trigger] (a / b) <= a) by (nonlinear_arith);
    assert(forall|a: int, b: int| a >= 0 && b >= 2 ==> 2 * #[trigger] (a / b) <= a) by (nonlinear_arith);
}

/// Answers a division request: `num1 / num2` rounded toward zero, refused
/// for a zero denominator.
pub fn div(num1: i32, num2: i32) -> (r: Result<i32, OpError>)
    requires
        !(num1 == i32::MIN && num2 == -1),
    ensures
        num2 == 0 ==> r == Err::<i32, OpError>(OpError::ZeroDenominator),
        num2 != 0 ==> r == Ok::<i32, OpError>(div_toward_zero(num1 as int, num2 as int) as i32),
{
    if num2 == 0 {
        return Err(OpError::ZeroDenominator);
    }
    proof {
        lemma_div_toward_zero_bound(num1 as int, num2 as int);
    }
    match num1.checked_div(num2) {
        Some(result) => Ok(result),
        None => Err(OpError::ZeroDenominator),
    }
}

/// Answers a multiplication request.
pub fn mul(num1: i32, num2: i32) -> (r: i32)
    requires
        i32::MIN <= num1 * num2 <= i32::MAX,
    ensures
        r == num1 * num2,
{
    num1 * num2
}

} // verus!
