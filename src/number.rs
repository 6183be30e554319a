use vstd::prelude::*;

verus! {

/// An exact rational number `num / den`, with `den > 0`.
#[derive(Clone, Copy, Debug, PartialEq, Eq, Structural)]
pub struct Number {
    pub num: i64,
    pub den: i64,
}

/// Why an arithmetic operation has no result.
#[derive(Clone, Copy, Debug, PartialEq, Eq, Structural)]
pub enum ArithError {
    DivisionByZero,
    /// The exact result does not fit in 64-bit numerator and denominator.
    Overflow,
}

pub open spec fn fits(x: int) -> bool {
    i64::MIN <= x <= i64::MAX
}

pub open spec fn abs(x: int) -> int {
    if x >= 0 { x } else { -x }
}

/// The remainder of `n / d` with the quotient truncated toward zero; it
/// takes the sign of `n`.
pub open spec fn trunc_rem(n: int, d: int) -> int {
    if n >= 0 { abs(n) % abs(d) } else { -(abs(n) % abs(d)) }
}

/// The result `num / den` when both fit, else `Overflow`.
pub open spec fn checked(num: int, den: int) -> Result<Number, ArithError> {
    if fits(num) && fits(den) {
        Ok(Number { num: num as i64, den: den as i64 })
    } else {
        Err(ArithError::Overflow)
    }
}

proof fn lemma_product_bound(a: i64, b: i64)
    ensures
        abs(a as int * b as int) <= 0x4000_0000_0000_0000_0000_0000_0000_0000,
        b > 0 ==> abs(a as int * b as int) < 0x4000_0000_0000_0000_0000_0000_0000_0000,
{
    if b > 0 {
        assert(abs(a as int) * (b as int) < 0x8000_0000_0000_0000 * 0x8000_0000_0000_0000) by (nonlinear_arith)
            requires
                abs(a as int) <= 0x8000_0000_0000_0000,
                0 < b < 0x8000_0000_0000_0000,
                abs(a as int) >= 0,
        ;
        assert(abs(a as int * b as int) == abs(a as int) * (b as int)) by (nonlinear_arith)
            requires
                b > 0,
        ;
    }
    assert(abs(a as int) <= 0x8000_0000_0000_0000);
    assert(abs(b as int) <= 0x8000_0000_0000_0000);
    assert(abs(a as int * b as int) == abs(a as int) * abs(b as int)) by (nonlinear_arith);
    assert(abs(a as int) * abs(b as int) <= 0x8000_0000_0000_0000 * 0x8000_0000_0000_0000) by (nonlinear_arith)
        requires
            abs(a as int) <= 0x8000_0000_0000_0000,
            abs(b as int) <= 0x8000_0000_0000_0000,
            abs(a as int) >= 0,
            abs(b as int) >= 0,
    ;
}

fn mul_wide(a: i64, b: i64) -> (r: i128)
    ensures
        r == a as int * b as int,
        abs(r as int) <= 0x4000_0000_0000_0000_0000_0000_0000_0000,
        b > 0 ==> abs(r as int) < 0x4000_0000_0000_0000_0000_0000_0000_0000,
{
    proof {
        lemma_product_bound(a, b);
    }
    a as i128 * b as i128
}

fn narrow(num: i128, den: i128) -> (r: Result<Number, ArithError>)
    ensures
        r == checked(num as int, den as int),
{
    if num < i64::MIN as i128 || num > i64::MAX as i128 || den < i64::MIN as i128 || den > i64::MAX as i128 {
        Err(ArithError::Overflow)
    } else {
        Ok(Number { num: num as i64, den: den as i64 })
    }
}

impl Number {
    pub open spec fn wf(&self) -> bool {
        self.den > 0
    }

    /// The integer `n`.
    pub fn from_int(n: i64) -> (r: Number)
        ensures
            r.wf(),
            r.num == n,
            r.den == 1,
    {
        Number { num: n, den: 1 }
    }

    /// `a + b`.
    pub fn add(a: Number, b: Number) -> (r: Result<Number, ArithError>)
        requires
            a.wf(),
            b.wf(),
        ensures
            r == checked(a.num * b.den + b.num * a.den, a.den * b.den),
            r matches Ok(n) ==> n.wf(),
    {
        let x = mul_wide(a.num, b.den);
        let y = mul_wide(b.num, a.den);
        let d = mul_wide(a.den, b.den);
        proof {
            assert(a.den as int * b.den as int > 0) by (nonlinear_arith)
                requires
                    a.den > 0,
                    b.den > 0,
            ;
        }
        narrow(x + y, d)
    }

    /// `a - b`.
    pub fn sub(a: Number, b: Number) -> (r: Result<Number, ArithError>)
        requires
            a.wf(),
            b.wf(),
        ensures
            r == checked(a.num * b.den - b.num * a.den, a.den * b.den),
            r matches Ok(n) ==> n.wf(),
    {
        let x = mul_wide(a.num, b.den);
        let y = mul_wide(b.num, a.den);
        let d = mul_wide(a.den, b.den);
        proof {
            assert(a.den as int * b.den as int > 0) by (nonlinear_arith)
                requires
                    a.den > 0,
                    b.den > 0,
            ;
        }
        narrow(x - y, d)
    }

    /// `a * b`.
    pub fn mul(a: Number, b: Number) -> (r: Result<Number, ArithError>)
        requires
            a.wf(),
            b.wf(),
        ensures
            r == checked(a.num * b.num, a.den * b.den),
            r matches Ok(n) ==> n.wf(),
    {
        let x = mul_wide(a.num, b.num);
        let d = mul_wide(a.den, b.den);
        proof {
            assert(a.den as int * b.den as int > 0) by (nonlinear_arith)
                requires
                    a.den > 0,
                    b.den > 0,
            ;
        }
        narrow(x, d)
    }

    /// `a / b`; division by zero is an error.
    pub fn div(a: Number, b: Number) -> (r: Result<Number, ArithError>)
        requires
            a.wf(),
            b.wf(),
        ensures
            b.num == 0 ==> r == Err::<Number, ArithError>(ArithError::DivisionByZero),
            b.num > 0 ==> r == checked(a.num * b.den, a.den * b.num),
            b.num < 0 ==> r == checked(-(a.num * b.den), -(a.den * b.num)),
            r matches Ok(n) ==> n.wf(),
    {
        if b.num == 0 {
            return Err(ArithError::DivisionByZero);
        }
        let x = mul_wide(a.num, b.den);
        let d = mul_wide(a.den, b.num);
        proof {
            if b.num > 0 {
                assert(a.den as int * b.num as int > 0) by (nonlinear_arith)
                    requires
                        a.den > 0,
                        b.num > 0,
                ;
            } else {
                assert((a.den as int * b.num as int) < 0) by (nonlinear_arith)
                    requires
                        a.den > 0,
                        b.num < 0,
                ;
            }
        }
        if b.num > 0 {
            narrow(x, d)
        } else {
            narrow(-x, -d)
        }
    }

    /// The remainder of `a / b` with the quotient truncated toward zero
    /// (the sign of `a`); a zero divisor is an error.
    pub fn rem(a: Number, b: Number) -> (r: Result<Number, ArithError>)
        requires
            a.wf(),
            b.wf(),
        ensures
            b.num == 0 ==> r == Err::<Number, ArithError>(ArithError::DivisionByZero),
            b.num != 0 ==> r == checked(trunc_rem(a.num * b.den, a.den * b.num), a.den * b.den),
            r matches Ok(n) ==> n.wf(),
    {
        if b.num == 0 {
            return Err(ArithError::DivisionByZero);
        }
        let x = mul_wide(a.num, b.den);
        let y = mul_wide(a.den, b.num);
        let d = mul_wide(a.den, b.den);
        proof {
            assert(a.den as int * b.den as int > 0) by (nonlinear_arith)
                requires
                    a.den > 0,
                    b.den > 0,
            ;
            assert(a.den as int * b.num as int != 0) by (nonlinear_arith)
                requires
                    a.den > 0,
                    b.num != 0,
            ;
        }
        let ux: u128 = if x >= 0 { x as u128 } else { (-x) as u128 };
        let uy: u128 = if y >= 0 { y as u128 } else { (-y) as u128 };
        let m: u128 = ux % uy;
        proof {
            assert(m < uy);
        }
        let rm: i128 = if x >= 0 { m as i128 } else { -(m as i128) };
        narrow(rm, d)
    }
}

} // verus!
