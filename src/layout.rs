//! Alignment arithmetic shared by the allocators.
use vstd::prelude::*;
use vstd::arithmetic::div_mod::lemma_fundamental_div_mod_converse;

verus! {

/// `n` is 1, 2, 4, 8, ...
pub open spec fn is_power_of_two(n: nat) -> bool
    decreases n,
{
    if n == 1 {
        true
    } else if n == 0 || n % 2 == 1 {
        false
    } else {
        is_power_of_two(n / 2)
    }
}

/// `x` rounded up to the next multiple of `a`.
pub open spec fn round_up(x: nat, a: nat) -> nat
    recommends
        a > 0,
{
    if x % a == 0 {
        x
    } else {
        (x + (a - x % a)) as nat
    }
}

/// The smaller of two powers of two divides the larger.
pub proof fn lemma_power_of_two_divides(a: nat, b: nat)
    requires
        is_power_of_two(a),
        is_power_of_two(b),
        a <= b,
    ensures
        b % a == 0,
    decreases a,
{
    if a == 1 {
    } else {
        assert(b != 1);
        let (ha, hb) = ((a / 2) as nat, (b / 2) as nat);
        lemma_power_of_two_divides(ha, hb);
        let k = hb / ha;
        assert(hb == ha * k) by {
            vstd::arithmetic::div_mod::lemma_fundamental_div_mod(hb as int, ha as int);
        }
        assert(b == a * k) by (nonlinear_arith)
            requires
                hb == ha * k,
                b == 2 * hb,
                a == 2 * ha,
        ;
        lemma_fundamental_div_mod_converse(b as int, a as int, k as int, 0);
    }
}

/// What rounding up yields: the least multiple of `a` that is at least `x`.
pub proof fn lemma_round_up(x: nat, a: nat)
    requires
        a > 0,
    ensures
        round_up(x, a) % a == 0,
        x <= round_up(x, a) < x + a,
        x % a == 0 ==> round_up(x, a) == x,
{
    let q = x / a;
    let r = x % a;
    vstd::arithmetic::div_mod::lemma_fundamental_div_mod(x as int, a as int);
    if r != 0 {
        assert(x + (a - r) == (q + 1) * a) by (nonlinear_arith)
            requires
                x == a * q + r,
        ;
        lemma_fundamental_div_mod_converse((x + (a - r)) as int, a as int, (q + 1) as int, 0);
    }
}

/// A sum of multiples of `a` is a multiple of `a`.
pub proof fn lemma_multiple_sum(a: nat, x: nat, y: nat)
    requires
        a > 0,
        x % a == 0,
        y % a == 0,
    ensures
        (x + y) % a == 0,
{
    vstd::arithmetic::div_mod::lemma_fundamental_div_mod(x as int, a as int);
    vstd::arithmetic::div_mod::lemma_fundamental_div_mod(y as int, a as int);
    let (qx, qy) = (x / a, y / a);
    assert(x + y == (qx + qy) * a) by (nonlinear_arith)
        requires
            x == a * qx,
            y == a * qy,
    ;
    lemma_fundamental_div_mod_converse((x + y) as int, a as int, (qx + qy) as int, 0);
}

/// A multiple of a multiple of `a` is a multiple of `a`.
pub proof fn lemma_multiple_scaled(a: nat, x: nat, k: nat)
    requires
        a > 0,
        x % a == 0,
    ensures
        (k * x) % a == 0,
{
    vstd::arithmetic::div_mod::lemma_fundamental_div_mod(x as int, a as int);
    let q = x / a;
    assert(k * x == (k * q) * a) by (nonlinear_arith)
        requires
            x == a * q,
    ;
    lemma_fundamental_div_mod_converse((k * x) as int, a as int, (k * q) as int, 0);
}

/// Divisibility is transitive: a multiple of `b` is a multiple of every divisor `a` of `b`.
pub proof fn lemma_multiple_transitive(a: nat, b: nat, x: nat)
    requires
        a > 0,
        b > 0,
        b % a == 0,
        x % b == 0,
    ensures
        x % a == 0,
{
    vstd::arithmetic::div_mod::lemma_fundamental_div_mod(x as int, b as int);
    lemma_multiple_scaled(a, b, x / b);
    assert(x == (x / b) * b) by (nonlinear_arith)
        requires
            x == b * (x / b),
    ;
}

/// Whether `n` is a power of two.
pub fn is_power_of_two_exec(n: usize) -> (r: bool)
    ensures
        r == is_power_of_two(n as nat),
{
    let mut m: usize = n;
    while m > 1 && m % 2 == 0
        invariant
            m > 0 || n == 0,
            m <= n,
            is_power_of_two(m as nat) == is_power_of_two(n as nat),
        decreases m,
    {
        m = m / 2;
    }
    m == 1
}

/// `x` rounded up to a multiple of `a`, or `None` when that does not fit.
pub fn round_up_checked(x: usize, a: usize) -> (r: Option<usize>)
    requires
        a > 0,
    ensures
        r == (if round_up(x as nat, a as nat) <= usize::MAX {
            Some(round_up(x as nat, a as nat) as usize)
        } else {
            None
        }),
{
    let rem = x % a;
    if rem == 0 {
        Some(x)
    } else {
        x.checked_add(a - rem)
    }
}

} // verus!
