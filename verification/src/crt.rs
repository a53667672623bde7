//! Combining vectors known modulo two coprime numbers into one vector modulo
//! their product, by the Chinese remainder theorem.
use vstd::prelude::*;
use crate::modular::at_least_one;
use crate::sms::{abs, gcd_spec};

verus! {

/// The extended Euclidean algorithm on non-negative numbers: `(g, x, y)`
/// with `g` the greatest common divisor of `a` and `b` and
/// `a * x + b * y == g`.
pub fn extended_euclid(a: i32, b: i32) -> (r: (i32, i32, i32))
    requires
        a >= 0,
        b >= 0,
    ensures
        r.0 == gcd_spec(a as nat, b as nat),
        a * r.1 + b * r.2 == r.0,
        b == 0 ==> r.1 == 1 && r.2 == 0,
        b > 0 ==> abs(r.1 as int) <= b && abs(r.2 as int) <= at_least_one(a as int),
    decreases b,
{
    if b == 0 {
        return (a, 1, 0);
    }
    let (g, x1, y1) = extended_euclid(b, a % b);
    let q = a / b;
    proof {
        let r = (a % b) as int;
        assert(a == b * q + r) by (nonlinear_arith)
            requires
                b > 0,
                q == a / b,
                r == a % b,
        ;
        if r == 0 {
            assert(y1 == 0);
        } else {
            assert(abs((q as int) * (y1 as int)) <= (q as int) * (b as int)) by (nonlinear_arith)
                requires
                    abs(y1 as int) <= b,
                    q >= 0,
            ;
        }
    }
    let x = y1;
    let y = x1 - q * y1;
    proof {
        assert(a * x + b * y == g) by (nonlinear_arith)
            requires
                b * x1 + (a % b) * y1 == g,
                a == b * q + (a % b),
                x == y1,
                y == x1 - q * y1,
        ;
    }
    (g, x, y)
}

/// The combination of `v` (known modulo `p1`) and `w` (known modulo `p2`)
/// at one position, before reduction modulo `p1 * p2`.
pub open spec fn crt_sum(v: int, w: int, p1: int, x: int, p2: int, y: int) -> int {
    x * p1 * w + y * p2 * v
}

/// Every step of the combination at each position stays within `i32`.
pub open spec fn crt_fits(v: Seq<i32>, w: Seq<i32>, p1: int, x: int, p2: int, y: int) -> bool {
    &&& i32::MIN <= x * p1 <= i32::MAX
    &&& i32::MIN <= y * p2 <= i32::MAX
    &&& forall|i: int| #![trigger v[i], w[i]] 0 <= i < v.len() ==> {
        &&& i32::MIN < (x * p1) * w[i] <= i32::MAX
        &&& i32::MIN < (y * p2) * v[i] <= i32::MAX
        &&& i32::MIN < crt_sum(v[i] as int, w[i] as int, p1, x, p2, y) <= i32::MAX
    }
}

/// The vector modulo `p1 * p2` that is `v` modulo `p1` and `w` modulo `p2`,
/// from Bezout coefficients `x * p1 + y * p2 == 1`: each entry is
/// `x * p1 * w[i] + y * p2 * v[i]` reduced into `0..p1 * p2`.
pub fn crt_combine(v: &[i32], w: &[i32], p1: i32, x: i32, p2: i32, y: i32) -> (u: Vec<i32>)
    requires
        v@.len() == w@.len(),
        p1 > 0,
        p2 > 0,
        p1 * p2 <= i32::MAX,
        crt_fits(v@, w@, p1 as int, x as int, p2 as int, y as int),
    ensures
        u@.len() == v@.len(),
        forall|i: int| 0 <= i < u@.len() ==> #[trigger] u@[i] == crt_sum(v@[i] as int, w@[i] as int, p1 as int, x as int, p2 as int, y as int) % (p1 * p2),
{
    let prod = p1 * p2;
    let mut u: Vec<i32> = Vec::with_capacity(v.len());
    let mut i: usize = 0;
    while i < v.len()
        invariant
            v@.len() == w@.len(),
            p1 > 0,
            p2 > 0,
            prod == p1 * p2,
            prod <= i32::MAX,
            crt_fits(v@, w@, p1 as int, x as int, p2 as int, y as int),
            i <= v@.len(),
            u@.len() == i,
            forall|k: int| 0 <= k < i ==> #[trigger] u@[k] == crt_sum(v@[k] as int, w@[k] as int, p1 as int, x as int, p2 as int, y as int) % (p1 * p2),
        decreases v@.len() - i,
    {
        proof {
            let vi = v@[i as int];
            let wi = w@[i as int];
            assert(i32::MIN < (x * p1) * wi <= i32::MAX);
            assert(i32::MIN < (y * p2) * vi <= i32::MAX);
            assert(prod > 0) by (nonlinear_arith)
                requires
                    p1 > 0,
                    p2 > 0,
                    prod == p1 * p2,
            ;
        }
        let s = x * p1 * w[i] + y * p2 * v[i];
        let r = rem_euclid(s, prod);
        u.push(r);
        i = i + 1;
    }
    u
}

/// The remainder of `s` modulo a positive `m`, in `0..m`.
fn rem_euclid(s: i32, m: i32) -> (r: i32)
    requires
        m > 0,
        s > i32::MIN,
    ensures
        r == s % m,
{
    if s >= 0 {
        s % m
    } else {
        let t = (-s) % m;
        proof {
            vstd::arithmetic::div_mod::lemma_fundamental_div_mod(-s as int, m as int);
            vstd::arithmetic::div_mod::lemma_fundamental_div_mod(s as int, m as int);
            let q1 = (-s as int) / (m as int);
            assert(-s == m * q1 + t);
            if t == 0 {
                assert(s == m * (-q1)) by (nonlinear_arith)
                    requires -s == m * q1;
                vstd::arithmetic::div_mod::lemma_mod_multiples_basic(-q1, m as int);
                assert((-q1) * m == m * (-q1)) by (nonlinear_arith);
            } else {
                assert(s == m * (-q1 - 1) + (m - t)) by (nonlinear_arith)
                    requires -s == m * q1 + t;
                vstd::arithmetic::div_mod::lemma_mod_multiples_vanish(-q1 - 1, (m - t) as int, m as int);
                vstd::arithmetic::div_mod::lemma_small_mod((m - t) as nat, m as nat);
                assert((-q1 - 1) * m == m * (-q1 - 1)) by (nonlinear_arith);
            }
        }
        if t == 0 {
            0
        } else {
            m - t
        }
    }
}

/// The Chinese remainder theorem for the combination: with Bezout
/// coefficients `x * p1 + y * p2 == 1`, the combined entry is `v` modulo `p1`
/// and `w` modulo `p2`.
pub proof fn lemma_crt(v: int, w: int, p1: int, x: int, p2: int, y: int)
    requires
        p1 > 0,
        p2 > 0,
        x * p1 + y * p2 == 1,
    ensures
        (crt_sum(v, w, p1, x, p2, y) % (p1 * p2)) % p1 == v % p1,
        (crt_sum(v, w, p1, x, p2, y) % (p1 * p2)) % p2 == w % p2,
{
    let s = crt_sum(v, w, p1, x, p2, y);
    let m = p1 * p2;
    assert(m > 0) by (nonlinear_arith)
        requires p1 > 0, p2 > 0, m == p1 * p2;
    vstd::arithmetic::div_mod::lemma_mod_mod(s, p1, p2);
    vstd::arithmetic::div_mod::lemma_mod_mod(s, p2, p1);
    assert(p2 * p1 == m) by (nonlinear_arith)
        requires m == p1 * p2;
    // s = v + p1 * (x * w - x * v)  since y * p2 = 1 - x * p1
    assert(s == v + p1 * (x * w - x * v)) by (nonlinear_arith)
        requires
            s == x * p1 * w + y * p2 * v,
            y * p2 == 1 - x * p1,
    ;
    assert(s == w + p2 * (y * v - y * w)) by (nonlinear_arith)
        requires
            s == x * p1 * w + y * p2 * v,
            x * p1 == 1 - y * p2,
    ;
    vstd::arithmetic::div_mod::lemma_mod_multiples_vanish(x * w - x * v, v, p1);
    vstd::arithmetic::div_mod::lemma_mod_multiples_vanish(y * v - y * w, w, p2);
    assert(p1 * (x * w - x * v) == (x * w - x * v) * p1) by (nonlinear_arith);
    assert(p2 * (y * v - y * w) == (y * v - y * w) * p2) by (nonlinear_arith);
}

} // verus!
