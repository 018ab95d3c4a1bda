//! Modular arithmetic: greatest common divisor, least common multiple and
//! inverses modulo an integer.
use vstd::arithmetic::div_mod::*;
use vstd::arithmetic::mul::*;
use vstd::prelude::*;

verus! {

/// Euclid's greatest common divisor, with `gcd(a, 0) == a`.
pub open spec fn gcd_spec(a: nat, b: nat) -> nat
    decreases b,
{
    if b == 0 {
        a
    } else {
        gcd_spec(b, a % b)
    }
}

/// `i` is an inverse of `x` modulo `m`, taken as a residue in `[0, m)`.
pub open spec fn is_inverse(x: int, m: int, i: int) -> bool {
    0 <= i < m && (x * i) % m == 1int % m
}

/// The inverse of `x` modulo `m`, where one exists.
pub open spec fn inv_spec(x: int, m: int) -> int {
    choose|i: int| is_inverse(x, m, i)
}

/// The least common multiple, `a * b / gcd(a, b)`.
pub open spec fn lcm_spec(a: nat, b: nat) -> int {
    (a * b) as int / gcd_spec(a, b) as int
}

/// `d` divides `x`, for a positive `d`.
pub open spec fn divides(d: int, x: int) -> bool {
    d > 0 && x % d == 0
}

/// A common divisor of `a` and `b` divides `a·k + b`.
pub proof fn lemma_divides_sum(d: int, a: int, k: int, b: int)
    requires
        divides(d, a),
        divides(d, b),
    ensures
        divides(d, a * k + b),
{
    lemma_fundamental_div_mod(a, d);
    lemma_fundamental_div_mod(b, d);
    let qa = a / d;
    let qb = b / d;
    assert(a * k + b == (qa * k + qb) * d) by (nonlinear_arith)
        requires
            a == d * qa,
            b == d * qb,
    ;
    lemma_mod_multiples_basic(qa * k + qb, d);
}

/// The greatest common divisor divides both arguments, and is positive
/// unless both are zero.
pub proof fn lemma_gcd_divides(a: nat, b: nat)
    ensures
        a > 0 || b > 0 ==> gcd_spec(a, b) > 0,
        gcd_spec(a, b) > 0 ==> divides(gcd_spec(a, b) as int, a as int) && divides(
            gcd_spec(a, b) as int,
            b as int,
        ),
    decreases b,
{
    if b > 0 {
        let r = a % b;
        lemma_gcd_divides(b, r);
        let g = gcd_spec(a, b) as int;
        if g > 0 {
            lemma_fundamental_div_mod(a as int, b as int);
            assert(a as int == (b as int) * (a as int / b as int) + r);
            lemma_divides_sum(g, b as int, a as int / b as int, r as int);
            lemma_mul_is_commutative(b as int, a as int / b as int);
        }
    }
}

/// `gcd(x, m)` depends on `x` only through its residue modulo `m`.
pub proof fn lemma_gcd_residue(x: nat, m: nat)
    requires
        m > 0,
    ensures
        gcd_spec(x, m) == gcd_spec(m, x % m),
        gcd_spec(x % m, m) == gcd_spec(x, m),
{
    lemma_small_mod(x % m, m);
}

/// In a prime modulus every nonzero residue is coprime to the modulus.
pub proof fn lemma_prime_coprime(x: nat, p: nat)
    requires
        is_prime(p as int),
        0 < x < p,
    ensures
        gcd_spec(x, p) == 1,
{
    lemma_gcd_divides(x, p);
    let g = gcd_spec(x, p) as int;
    if g > 1 {
        lemma_mod_is_zero(x, g as nat);
    }
}

/// `p` is a prime number.
pub open spec fn is_prime(p: int) -> bool {
    p > 1 && forall|d: int| 1 < d < p ==> #[trigger] (p % d) != 0
}

/// Inverses modulo `m` are unique among residues.
pub proof fn lemma_inverse_unique(x: int, m: int, i: int, j: int)
    requires
        is_inverse(x, m, i),
        is_inverse(x, m, j),
    ensures
        i == j,
{
    lemma_mul_mod_noop_right(i, x * j, m);
    lemma_mul_mod_noop_right(j, x * i, m);
    lemma_small_mod(i as nat, m as nat);
    lemma_small_mod(j as nat, m as nat);
    if m > 1 {
        lemma_small_mod(1, m as nat);
    }
    assert(i * (x * j) == j * (x * i)) by (nonlinear_arith);
}

/// Once one inverse is known, `inv_spec` names it.
pub proof fn lemma_inv_spec(x: int, m: int, i: int)
    requires
        is_inverse(x, m, i),
    ensures
        inv_spec(x, m) == i,
{
    lemma_inverse_unique(x, m, inv_spec(x, m), i);
}

/// No inverse exists where `x` and `m` share a factor.
proof fn lemma_no_inverse(x: nat, m: nat, i: int)
    requires
        m > 0,
        gcd_spec(x, m) != 1,
    ensures
        !is_inverse(x as int, m as int, i),
{
    lemma_gcd_divides(x, m);
    let g = gcd_spec(x, m) as int;
    if is_inverse(x as int, m as int, i) {
        lemma_fundamental_div_mod(x * i, m as int);
        let k = (x * i) / (m as int);
        if m == 1 {
            assert(gcd_spec(x, 1) == gcd_spec(1, 0)) by {
                lemma_small_mod(0, 1);
            };
        }
        lemma_small_mod(1, m as nat);
        assert(x * i == m * k + 1);
        lemma_divides_sum(g, x as int, i, 0);
        lemma_divides_sum(g, m as int, -k, 0);
        lemma_divides_sum(g, x * i, 1, m * (-k));
        assert(x * i * 1 + m * (-k) == 1) by (nonlinear_arith)
            requires
                x * i == m * k + 1,
        ;
        lemma_small_mod(1, g as nat);
    }
}

/// One step of the extended Euclidean algorithm keeps the Bezout relation
/// modulo `m`.
proof fn lemma_bezout_step(m: int, x: int, t0: int, t1: int, r0: int, r1: int, q: int, t2: int)
    requires
        m > 0,
        (t0 * x) % m == r0 % m,
        (t1 * x) % m == r1 % m,
        t2 % m == (t0 - q * t1) % m,
    ensures
        (t2 * x) % m == (r0 - q * r1) % m,
{
    lemma_mul_mod_noop_left(t2, x, m);
    lemma_mul_mod_noop_left(t0 - q * t1, x, m);
    assert((t0 - q * t1) * x == t0 * x - q * (t1 * x)) by (nonlinear_arith);
    lemma_sub_mod_noop(t0 * x, q * (t1 * x), m);
    lemma_sub_mod_noop(r0, q * r1, m);
    lemma_mul_mod_noop_right(q, t1 * x, m);
    lemma_mul_mod_noop_right(q, r1, m);
}

/// The product of two `u64` values fits in a `u128`.
pub proof fn lemma_product_fits(a: u64, b: u64)
    ensures
        a * b <= u128::MAX,
{
    assert(a * b <= u64::MAX * u64::MAX) by (nonlinear_arith)
        requires
            a <= u64::MAX,
            b <= u64::MAX,
    ;
}

/// Greatest common divisor by Euclid's algorithm.
pub fn gcd(a: u64, b: u64) -> (r: u64)
    ensures
        r == gcd_spec(a as nat, b as nat),
{
    let mut x: u64 = a;
    let mut y: u64 = b;
    while y != 0
        invariant
            gcd_spec(x as nat, y as nat) == gcd_spec(a as nat, b as nat),
        decreases y,
    {
        let t = x % y;
        x = y;
        y = t;
    }
    x
}

/// Least common multiple, `a * b / gcd(a, b)`.
pub fn lcm(a: u64, b: u64) -> (r: u64)
    requires
        a > 0 || b > 0,
        lcm_spec(a as nat, b as nat) <= u64::MAX,
    ensures
        r == lcm_spec(a as nat, b as nat),
{
    let g = gcd(a, b);
    proof {
        lemma_gcd_divides(a as nat, b as nat);
        lemma_product_fits(a, b);
    }
    let prod: u128 = a as u128 * b as u128;
    (prod / g as u128) as u64
}

/// The inverse of `x` modulo `p`: the residue `i` in `[0, p)` with
/// `x * i ≡ 1 (mod p)`. It exists exactly when `gcd(x, p) == 1`, and is then
/// computed by the extended Euclidean algorithm.
pub fn inv_mod(x: u64, p: u64) -> (r: Option<u64>)
    requires
        p > 0,
    ensures
        r.is_some() <==> gcd_spec(x as nat, p as nat) == 1,
        r matches Some(i) ==> is_inverse(x as int, p as int, i as int) && i == inv_spec(
            x as int,
            p as int,
        ),
        r.is_none() ==> forall|i: int| !is_inverse(x as int, p as int, i),
{
    let xr = x % p;
    let mut r0: u64 = p;
    let mut r1: u64 = xr;
    let mut t0: u64 = 0;
    let mut t1: u64 = 1 % p;
    proof {
        lemma_gcd_residue(x as nat, p as nat);
        lemma_small_mod(xr as nat, p as nat);
        lemma_mod_self_0(p as int);
        if p > 1 {
            lemma_small_mod(1, p as nat);
            assert(t1 == 1);
            assert(t1 * xr == xr) by (nonlinear_arith)
                requires
                    t1 == 1,
            ;
        } else {
            assert(xr == 0);
            assert(t1 * xr == 0);
        }
        assert(t0 * xr == 0);
    }
    while r1 != 0
        invariant
            p > 0,
            t0 < p,
            t1 < p,
            (t0 * xr) % (p as int) == (r0 as int) % (p as int),
            (t1 * xr) % (p as int) == (r1 as int) % (p as int),
            gcd_spec(r0 as nat, r1 as nat) == gcd_spec(x as nat, p as nat),
        decreases r1,
    {
        let q = r0 / r1;
        let r2 = r0 % r1;
        proof {
            lemma_product_fits(q, t1);
        }
        let qt = ((q as u128 * t1 as u128) % p as u128) as u64;
        let t2 = if t0 >= qt {
            t0 - qt
        } else {
            p - (qt - t0)
        };
        proof {
            lemma_fundamental_div_mod(r0 as int, r1 as int);
            lemma_mod_pos_bound((q * t1) as int, p as int);
            assert(t2 as int % p as int == (t0 - q * t1) % p as int) by {
                lemma_sub_mod_noop(t0 as int, q * t1, p as int);
                lemma_small_mod(t0 as nat, p as nat);
                lemma_small_mod(qt as nat, p as nat);
                lemma_small_mod(t2 as nat, p as nat);
                if t0 < qt {
                    lemma_mod_add_multiples_vanish(t0 - qt, p as int);
                }
            };
            lemma_bezout_step(p as int, xr as int, t0 as int, t1 as int, r0 as int, r1 as int, q as int, t2 as int);
            assert(r2 == r0 - q * r1) by {
                lemma_mul_is_commutative(r1 as int, q as int);
            };
        }
        r0 = r1;
        r1 = r2;
        t0 = t1;
        t1 = t2;
    }
    proof {
        lemma_mul_mod_noop_right(x as int, t0 as int, p as int);
        lemma_mul_mod_noop_left(x as int, t0 as int, p as int);
        lemma_mul_is_commutative(t0 as int, xr as int);
        lemma_mul_is_commutative(t0 as int, x as int);
        lemma_mod_twice(x as int, p as int);
    }
    if r0 == 1 {
        proof {
            lemma_inv_spec(x as int, p as int, t0 as int);
        }
        Some(t0)
    } else {
        proof {
            assert forall|i: int| !is_inverse(x as int, p as int, i) by {
                lemma_no_inverse(x as nat, p as nat, i);
            }
        }
        None
    }
}

/// `x * inv_mod(x, p) mod p`, which is `1 mod p` whenever the inverse exists.
pub fn div_mod(x: u64, p: u64) -> (r: Option<u64>)
    requires
        p > 0,
    ensures
        r.is_some() <==> gcd_spec(x as nat, p as nat) == 1,
        r matches Some(v) ==> v == 1int % (p as int),
{
    match inv_mod(x, p) {
        Some(inv) => {
            proof {
                lemma_product_fits(x, inv);
            }
            Some(((x as u128 * inv as u128) % p as u128) as u64)
        },
        None => None,
    }
}

/// Reducing either operand of a sum or difference first leaves the residue
/// unchanged.
pub proof fn lemma_mod_linear(x: int, y: int, m: int)
    requires
        m > 0,
    ensures
        ((x % m) + y) % m == (x + y) % m,
        (x + (y % m)) % m == (x + y) % m,
        ((x % m) - y) % m == (x - y) % m,
        (x - (y % m)) % m == (x - y) % m,
        ((x % m) + (y % m)) % m == (x + y) % m,
        ((x % m) - (y % m)) % m == (x - y) % m,
{
    lemma_mod_twice(x, m);
    lemma_mod_twice(y, m);
    lemma_add_mod_noop(x % m, y, m);
    lemma_add_mod_noop(x, y % m, m);
    lemma_add_mod_noop(x, y, m);
    lemma_sub_mod_noop(x % m, y, m);
    lemma_sub_mod_noop(x, y % m, m);
    lemma_sub_mod_noop(x, y, m);
}

/// `(a * b) mod m`, through a `u128` product.
pub(crate) fn mul_mod(a: u64, b: u64, m: u64) -> (r: u64)
    requires
        m > 0,
    ensures
        r == (a * b) % (m as int),
        r < m,
{
    proof {
        lemma_product_fits(a, b);
    }
    ((a as u128 * b as u128) % m as u128) as u64
}

/// `(a + b) mod m` for residues `a` and `b`.
pub(crate) fn add_mod(a: u64, b: u64, m: u64) -> (r: u64)
    requires
        a < m,
        b < m,
    ensures
        r == (a + b) % (m as int),
        r < m,
{
    ((a as u128 + b as u128) % m as u128) as u64
}

/// `(a - b) mod m` for residues `a` and `b`, as a residue.
pub(crate) fn sub_mod(a: u64, b: u64, m: u64) -> (r: u64)
    requires
        a < m,
        b < m,
    ensures
        r == (a - b) % (m as int),
        r < m,
{
    if a >= b {
        proof {
            lemma_small_mod((a - b) as nat, m as nat);
        }
        a - b
    } else {
        let r = m - (b - a);
        proof {
            lemma_fundamental_div_mod_converse_mod(a - b, m as int, -1, r as int);
        }
        r
    }
}

/// The residue of a signed value modulo `m`, in `[0, m)`.
pub(crate) fn reduce_signed(v: i64, m: u64) -> (r: u64)
    requires
        m > 0,
    ensures
        r == (v as int) % (m as int),
        r < m,
{
    if v >= 0 {
        (v as u64) % m
    } else {
        let k: u128 = (-(v as i128)) as u128;
        let t = (k % m as u128) as u64;
        proof {
            lemma_fundamental_div_mod(k as int, m as int);
        }
        if t == 0 {
            proof {
                let q = k as int / m as int;
                assert(v as int == (-q) * (m as int) + 0) by (nonlinear_arith)
                    requires
                        k as int == (m as int) * q + 0,
                        v as int == -(k as int),
                ;
                lemma_fundamental_div_mod_converse_mod(v as int, m as int, -q, 0);
            }
            0
        } else {
            let r = m - t;
            proof {
                let q = k as int / m as int;
                assert(v as int == (-q - 1) * (m as int) + r) by (nonlinear_arith)
                    requires
                        k as int == (m as int) * q + t,
                        v as int == -(k as int),
                        r == m - t,
                ;
                lemma_fundamental_div_mod_converse_mod(v as int, m as int, -q - 1, r as int);
            }
            r
        }
    }
}

/// A number with no divisor in `(1, k)`, where `k² > n`, has none in `(1, n)`:
/// a divisor at or above `k` would pair with one below it.
proof fn lemma_no_small_divisor(n: int, d: int, k: int)
    requires
        1 < d < n,
        k * k > n,
        k > 0,
        forall|j: int| 1 < j < k ==> #[trigger] (n % j) != 0,
    ensures
        n % d != 0,
{
    if n % d == 0 {
        lemma_fundamental_div_mod(n, d);
        let c = n / d;
        assert(1 < c < n && n == c * d) by (nonlinear_arith)
            requires
                n == d * c,
                1 < d < n,
        ;
        lemma_fundamental_div_mod_converse_mod(n, c, d, 0);
        if d >= k {
            assert(c < k) by (nonlinear_arith)
                requires
                    n == c * d,
                    d >= k,
                    k * k > n,
                    k > 0,
                    c > 1,
            ;
            assert(n % c != 0);
        }
    }
}

/// Whether `n` is prime, by trial division up to its square root.
pub fn check_prime(n: u64) -> (r: bool)
    ensures
        r == is_prime(n as int),
{
    if n < 2 {
        return false;
    }
    let mut d: u64 = 2;
    proof {
        lemma_product_fits(d, d);
    }
    while (d as u128) * (d as u128) <= n as u128
        invariant
            2 <= d <= n,
            d * d <= u128::MAX,
            forall|j: int| 1 < j < d ==> #[trigger] ((n as int) % j) != 0,
        decreases n - d,
    {
        assert(d < n) by (nonlinear_arith)
            requires
                d * d <= n,
                2 <= d,
        ;
        if n % d == 0 {
            assert((n as int) % (d as int) == 0);
            return false;
        }
        d = d + 1;
        proof {
            lemma_product_fits(d, d);
        }
    }
    proof {
        assert forall|j: int| 1 < j < n implies #[trigger] ((n as int) % j) != 0 by {
            lemma_no_small_divisor(n as int, j, d as int);
        }
    }
    true
}

/// The least divisor of `n` in `[d, n)`, or `n` itself when there is none.
pub open spec fn least_divisor(n: nat, d: nat) -> nat
    decreases n - d,
{
    if d >= n {
        n
    } else if n % d == 0 {
        d
    } else {
        least_divisor(n, d + 1)
    }
}

/// `n` with every factor `p` divided out.
pub open spec fn strip_factor(n: nat, p: nat) -> nat
    decreases n,
    via strip_factor_decreases
{
    if p > 1 && n > 0 && n % p == 0 {
        strip_factor(n / p, p)
    } else {
        n
    }
}

#[via_fn]
proof fn strip_factor_decreases(n: nat, p: nat) {
    if p > 1 && n > 0 && n % p == 0 {
        lemma_div_is_strictly_smaller(n as int, p as int);
    }
}

/// Euler's totient by its product formula: with `p` the least prime factor
/// of `n` and `p^k` its largest power dividing `n`,
/// `φ(n) = p^(k−1)·(p − 1)·φ(n / p^k)`, and `φ(1) = 1`, `φ(0) = 0`.
pub open spec fn totient_spec(n: nat) -> nat
    decreases n,
    via totient_decreases
{
    if n <= 1 {
        n
    } else {
        let p = least_divisor(n, 2);
        let rest = strip_factor(n, p);
        (n / rest / p) * (p - 1) as nat * totient_spec(rest)
    }
}

#[via_fn]
proof fn totient_decreases(n: nat) {
    if n > 1 {
        lemma_least_divisor(n, 2);
        let p = least_divisor(n, 2);
        lemma_div_is_strictly_smaller(n as int, p as int);
        lemma_fundamental_div_mod(n as int, p as int);
        assert(n / p > 0) by (nonlinear_arith)
            requires
                n == p * (n / p) + 0,
                n > 0,
                p > 1,
        ;
        lemma_strip_factor((n / p) as nat, p);
    }
}

/// `least_divisor(n, d)` lies in `[d, n]` and divides `n`.
proof fn lemma_least_divisor(n: nat, d: nat)
    requires
        1 < d <= n,
    ensures
        d <= least_divisor(n, d) <= n,
        n % least_divisor(n, d) == 0,
    decreases n - d,
{
    if d < n && n % d != 0 {
        lemma_least_divisor(n, d + 1);
    }
    if d == n || least_divisor(n, d) == n {
        lemma_mod_self_0(n as int);
    }
}

/// With no divisor of `n` in `[j, d)`, the least one from `j` on is `d`
/// when `d` divides `n`.
proof fn lemma_least_divisor_is(n: nat, j: nat, d: nat)
    requires
        1 < j <= d <= n,
        n % d == 0,
        forall|i: nat| j <= i < d ==> #[trigger] (n % i) != 0,
    ensures
        least_divisor(n, j) == d,
    decreases d - j,
{
    if j < d {
        lemma_least_divisor_is(n, j + 1, d);
    }
}

/// `strip_factor(n, p)` is a positive divisor of `n` no larger than `n`.
proof fn lemma_strip_factor(n: nat, p: nat)
    requires
        n > 0,
    ensures
        0 < strip_factor(n, p) <= n,
    decreases n,
{
    if p > 1 && n % p == 0 {
        lemma_div_is_strictly_smaller(n as int, p as int);
        lemma_fundamental_div_mod(n as int, p as int);
        assert(n / p > 0) by (nonlinear_arith)
            requires
                n == p * (n / p) + 0,
                n > 0,
                p > 1,
        ;
        lemma_strip_factor((n / p) as nat, p);
    }
}

/// Euler's totient by trial division: each prime factor `d` found below
/// the square root of what is left is divided out, multiplying the result by
/// `d^(k−1)·(d − 1)`; what is left at the end is `1` or a prime.
pub fn totient(n: u64) -> (r: u64)
    ensures
        r == totient_spec(n as nat),
{
    if n <= 1 {
        return n;
    }
    let mut result: u64 = 1;
    let mut m: u64 = n;
    let mut d: u64 = 2;
    proof {
        lemma_product_fits(d, d);
    }
    while (d as u128) * (d as u128) <= m as u128
        invariant
            2 <= d,
            1 <= m <= n,
            d * d <= u128::MAX,
            result * totient_spec(m as nat) == totient_spec(n as nat),
            result * m <= n,
            forall|j: nat| 2 <= j < d ==> #[trigger] ((m as nat) % j) != 0,
        decreases n - d,
    {
        assert(d < m) by (nonlinear_arith)
            requires
                d * d <= m,
                2 <= d,
        ;
        if m % d == 0 {
            let mut rest = m;
            let mut pk: u64 = 1;
            while rest % d == 0
                invariant
                    2 <= d < m,
                    1 <= rest <= m,
                    1 <= pk,
                    pk * rest == m,
                    strip_factor(rest as nat, d as nat) == strip_factor(m as nat, d as nat),
                decreases rest,
            {
                proof {
                    lemma_fundamental_div_mod(rest as int, d as int);
                    lemma_div_is_strictly_smaller(rest as int, d as int);
                    assert(rest / d >= 1 && pk * d * (rest / d) == m) by (nonlinear_arith)
                        requires
                            rest == d * (rest / d) + 0,
                            rest >= 1,
                            d >= 2,
                            pk * rest == m,
                    ;
                    assert(pk * d <= m) by (nonlinear_arith)
                        requires
                            pk * d * (rest / d) == m,
                            rest / d >= 1,
                            pk >= 1,
                    ;
                }
                rest = rest / d;
                pk = pk * d;
            }
            let ghost mm = m as nat;
            proof {
                lemma_fundamental_div_mod(pk as int, d as int);
                lemma_div_pos_is_pos(pk as int, d as int);
                assert((pk / d) * (d - 1) <= pk) by (nonlinear_arith)
                    requires
                        d >= 2,
                        pk >= 1,
                        pk / d >= 0,
                        pk == d * (pk / d) + pk % d,
                        pk % d >= 0,
                ;
            }
            let factor = (pk / d) * (d - 1);
            proof {
                lemma_least_divisor_is(mm, 2, d as nat);
                lemma_fundamental_div_mod_converse_div(m as int, rest as int, pk as int, 0);
                assert(strip_factor(mm, d as nat) == rest as nat);
                assert(totient_spec(mm) == factor * totient_spec(rest as nat));
                assert(result * factor * rest <= n) by (nonlinear_arith)
                    requires
                        factor <= pk,
                        pk * rest == m,
                        result * m <= n,
                ;
                assert(result * factor <= n) by (nonlinear_arith)
                    requires
                        result * factor * rest <= n,
                        rest >= 1,
                ;
                assert(result * factor * totient_spec(rest as nat) == result * totient_spec(mm))
                    by (nonlinear_arith)
                    requires
                        totient_spec(mm) == factor * totient_spec(rest as nat),
                ;
                assert forall|j: nat| 2 <= j < d + 1 implies #[trigger] ((rest as nat) % j) != 0 by {
                    if j < d && (rest as nat) % j == 0 {
                        lemma_small_mod(0, j);
                        lemma_divides_sum(j as int, rest as int, pk as int, 0);
                        assert(rest * pk + 0 == m) by (nonlinear_arith)
                            requires
                                pk * rest == m,
                        ;
                        assert(((m as nat) % j) != 0);
                    }
                }
            }
            result = result * factor;
            m = rest;
        }
        d = d + 1;
        proof {
            lemma_product_fits(d, d);
        }
    }
    if m > 1 {
        proof {
            let mm = m as nat;
            assert forall|i: nat| 2 <= i < mm implies #[trigger] (mm % i) != 0 by {
                if i >= d {
                    lemma_no_small_divisor(mm as int, i as int, d as int);
                }
            }
            lemma_mod_self_0(mm as int);
            lemma_least_divisor_is(mm, 2, mm);
            lemma_fundamental_div_mod_converse_div(mm as int, mm as int, 1, 0);
            lemma_small_mod(1, mm);
            assert(strip_factor(1, mm) == 1);
            assert(strip_factor(mm, mm) == 1);
            lemma_fundamental_div_mod_converse_div(mm as int, 1, mm as int, 0);
            assert(totient_spec(1) == 1);
            assert(mm / 1 / mm == 1);
            let p = least_divisor(mm, 2);
            assert(p == mm);
            let rest = strip_factor(mm, p);
            assert(rest == 1);
            let (a, b, c) = (mm / rest / p, (p - 1) as nat, totient_spec(rest));
            assert(totient_spec(mm) == a * b * c);
            assert(a * b * c == b) by (nonlinear_arith)
                requires
                    a == 1,
                    c == 1,
            ;
            assert(result * (m - 1) <= n) by (nonlinear_arith)
                requires
                    result * m <= n,
                    m > 1,
            ;
        }
        result = result * (m - 1);
    } else {
        assert(totient_spec(1) == 1);
    }
    result
}

} // verus!
