//! Bezout's identity, Euclid's lemma, Fermat's little theorem and its
//! consequence for a product of two distinct primes.
use crate::arithmetic::{
    gcd_spec, inv_spec, is_inverse, is_prime, lcm_spec, lemma_divides_sum,
    lemma_gcd_divides, lemma_prime_coprime,
};
use vstd::arithmetic::div_mod::*;
use vstd::arithmetic::mul::*;
use vstd::arithmetic::power::*;
use vstd::prelude::*;
use vstd::set_lib::*;

verus! {

/// Bezout coefficients by the extended Euclidean recursion.
pub open spec fn bezout(a: nat, b: nat) -> (int, int)
    decreases b,
{
    if b == 0 {
        (1, 0)
    } else {
        let (x, y) = bezout(b, a % b);
        (y, x - (a / b) * y)
    }
}

/// Bezout's identity: `a·x + b·y == gcd(a, b)`.
pub proof fn lemma_bezout(a: nat, b: nat)
    ensures
        a * bezout(a, b).0 + b * bezout(a, b).1 == gcd_spec(a, b),
    decreases b,
{
    if b > 0 {
        lemma_bezout(b, a % b);
        let (x, y) = bezout(b, a % b);
        lemma_fundamental_div_mod(a as int, b as int);
        let q = a as int / b as int;
        let r = (a % b) as int;
        assert(a * y + b * (x - q * y) == b * x + r * y) by (nonlinear_arith)
            requires
                a == b * q + r,
        ;
        assert(bezout(a, b) == (y, x - q * y));
        assert(gcd_spec(a, b) == gcd_spec(b, a % b));
    } else {
        let (x, y) = bezout(a, b);
        assert(x == 1 && y == 0);
        assert(a * x + b * y == a) by (nonlinear_arith)
            requires
                x == 1,
                b == 0,
        ;
    }
}

/// Euclid's lemma: a prime dividing a product, and not its first factor,
/// divides the second.
pub proof fn lemma_euclid(p: nat, a: int, b: int)
    requires
        is_prime(p as int),
        (a * b) % (p as int) == 0,
        a % (p as int) != 0,
    ensures
        b % (p as int) == 0,
{
    let pi = p as int;
    let r = a % pi;
    lemma_mod_bound(a, pi);
    lemma_prime_coprime(r as nat, p);
    lemma_bezout(r as nat, p);
    let (x, y) = bezout(r as nat, p);
    lemma_mul_mod_noop_left(a, b, pi);
    // p divides r·b, hence (r·b)·x + p·(b·y), which is b.
    lemma_mod_multiples_basic(b * y, pi);
    assert(p * (b * y) == (b * y) * p) by (nonlinear_arith);
    lemma_divides_sum(pi, r * b, x, pi * (b * y));
    assert((r * b) * x + pi * (b * y) == b) by (nonlinear_arith)
        requires
            r * x + pi * y == 1,
    ;
}

/// A value coprime to `n` is not a multiple of any divisor `d > 1` of `n`.
pub proof fn lemma_coprime_not_multiple(x: nat, n: nat, d: nat)
    requires
        gcd_spec(x, n) == 1,
        d > 1,
        n % d == 0,
    ensures
        x % d != 0,
{
    lemma_bezout(x, n);
    let (a, b) = bezout(x, n);
    if x % d == 0 {
        lemma_divides_sum(d as int, x as int, a, 0);
        lemma_divides_sum(d as int, n as int, b, x * a + 0);
        assert(n * b + (x * a + 0) == 1);
        lemma_small_mod(1, d);
    }
}

/// The product of a sequence of integers.
pub open spec fn product(s: Seq<int>) -> int
    decreases s.len(),
{
    if s.len() == 0 {
        1
    } else {
        product(s.drop_last()) * s.last()
    }
}

/// `n!`.
pub open spec fn factorial(n: nat) -> nat
    decreases n,
{
    if n == 0 {
        1
    } else {
        n * factorial((n - 1) as nat)
    }
}

/// Taking one element out of a sequence divides it out of the product.
proof fn lemma_product_remove(s: Seq<int>, j: int)
    requires
        0 <= j < s.len(),
    ensures
        product(s) == s[j] * product(s.remove(j)),
    decreases s.len(),
{
    if j == s.len() - 1 {
        assert(s.remove(j) =~= s.drop_last());
        lemma_mul_is_commutative(product(s.drop_last()), s.last());
    } else {
        lemma_product_remove(s.drop_last(), j);
        assert(s.remove(j).drop_last() =~= s.drop_last().remove(j));
        assert(s.remove(j).last() == s.last());
        let a = product(s.drop_last().remove(j));
        assert((s[j] * a) * s.last() == s[j] * (a * s.last())) by (nonlinear_arith);
    }
}

/// `k` distinct values from `[1, k]` multiply to `k!`.
proof fn lemma_distinct_product(s: Seq<int>, k: nat)
    requires
        s.len() == k,
        s.no_duplicates(),
        forall|i: int| 0 <= i < k ==> 1 <= #[trigger] s[i] <= k,
    ensures
        product(s) == factorial(k),
    decreases k,
{
    if k > 0 {
        if !s.contains(k as int) {
            s.unique_seq_to_set();
            lemma_int_range(1, k as int);
            assert(s.to_set().subset_of(set_int_range(1, k as int)));
            lemma_len_subset(s.to_set(), set_int_range(1, k as int));
        }
        let j = choose|j: int| 0 <= j < s.len() && s[j] == k as int;
        lemma_product_remove(s, j);
        let t = s.remove(j);
        assert forall|i: int| 0 <= i < k - 1 implies 1 <= #[trigger] t[i] <= k - 1 by {
            let i2 = if i < j {
                i
            } else {
                i + 1
            };
            assert(t[i] == s[i2]);
        }
        assert forall|a: int, b: int| 0 <= a < t.len() && 0 <= b < t.len() && a != b implies t[a]
            != t[b] by {
            let a2 = if a < j {
                a
            } else {
                a + 1
            };
            let b2 = if b < j {
                b
            } else {
                b + 1
            };
            assert(t[a] == s[a2] && t[b] == s[b2]);
        }
        lemma_distinct_product(t, (k - 1) as nat);
    }
}

/// The residues `x·1, x·2, …, x·k` modulo `p`.
pub open spec fn multiples(x: int, p: int, k: nat) -> Seq<int> {
    Seq::new(k, |i: int| (x * (i + 1)) % p)
}

/// The residues `x·i mod p` multiply to `x^k · k!` modulo `p`.
proof fn lemma_multiples_product(x: int, p: int, k: nat)
    requires
        p > 0,
    ensures
        product(multiples(x, p, k)) % p == (pow(x, k) * factorial(k)) % p,
    decreases k,
{
    reveal(pow);
    if k == 0 {
        assert(multiples(x, p, 0) =~= Seq::<int>::empty());
    } else {
        let k1 = (k - 1) as nat;
        lemma_multiples_product(x, p, k1);
        assert(multiples(x, p, k).drop_last() =~= multiples(x, p, k1));
        let prev = product(multiples(x, p, k1));
        let last = (x * k) % p;
        assert(multiples(x, p, k).last() == last);
        assert(product(multiples(x, p, k)) == prev * last);
        lemma_mul_mod_noop(prev, x * k, p);
        lemma_mul_mod_noop(pow(x, k1) * factorial(k1), x * k, p);
        lemma_mod_twice(x * k, p);
        lemma_mul_mod_noop_right(prev, x * k, p);
        assert(prev * last % p == (prev * (x * k)) % p);
        assert(((prev % p) * ((x * k) % p)) % p == ((pow(x, k1) * factorial(k1)) % p * ((x * k) % p)) % p);
        assert((pow(x, k1) * factorial(k1)) * (x * k) == (x * pow(x, k1)) * (k * factorial(k1)))
            by (nonlinear_arith);
        assert(pow(x, k) == x * pow(x, k1));
        assert(factorial(k) == k * factorial(k1));
    }
}

/// `k!` is not a multiple of a prime `p > k`.
proof fn lemma_factorial_coprime(p: nat, k: nat)
    requires
        is_prime(p as int),
        k < p,
    ensures
        (factorial(k) as int) % (p as int) != 0,
    decreases k,
{
    if k == 0 {
        lemma_small_mod(1, p);
    } else {
        let k1 = (k - 1) as nat;
        lemma_factorial_coprime(p, k1);
        lemma_small_mod(k, p);
        if (factorial(k) as int) % (p as int) == 0 {
            lemma_euclid(p, k as int, factorial(k1) as int);
        }
    }
}

/// Fermat's little theorem: `x^(p−1) ≡ 1 (mod p)` for a prime `p` that
/// does not divide `x`.
pub proof fn lemma_fermat(x: int, p: nat)
    requires
        is_prime(p as int),
        x % (p as int) != 0,
    ensures
        pow(x, (p - 1) as nat) % (p as int) == 1,
{
    let pi = p as int;
    let k = (p - 1) as nat;
    let s = multiples(x, pi, k);
    assert forall|i: int| 0 <= i < k implies 1 <= #[trigger] s[i] <= k by {
        lemma_mod_bound(x * (i + 1), pi);
        if s[i] == 0 {
            lemma_euclid(p, x, i + 1);
            lemma_small_mod((i + 1) as nat, p);
        }
    }
    assert forall|a: int, b: int| 0 <= a < s.len() && 0 <= b < s.len() && a != b implies s[a]
        != s[b] by {
        if s[a] == s[b] {
            lemma_sub_mod_noop(x * (a + 1), x * (b + 1), pi);
            assert(x * (a + 1) - x * (b + 1) == x * (a - b)) by (nonlinear_arith);
            lemma_small_mod(0, p);
            lemma_euclid(p, x, a - b);
            if a > b {
                lemma_small_mod((a - b) as nat, p);
            } else {
                lemma_small_mod((b - a) as nat, p);
                lemma_fundamental_div_mod_converse_mod(a - b, pi, -1, pi + a - b);
            }
        }
    }
    lemma_distinct_product(s, k);
    lemma_multiples_product(x, pi, k);
    let f = factorial(k) as int;
    let xp = pow(x, k);
    // f ≡ xp·f, so p divides (xp − 1)·f.
    lemma_sub_mod_noop(xp * f, f, pi);
    lemma_small_mod(f as nat % p, p);
    assert((xp - 1) * f == xp * f - f) by (nonlinear_arith);
    lemma_mod_self_0(pi);
    lemma_mod_bound(xp * f, pi);
    lemma_mod_bound(f, pi);
    lemma_small_mod(0, p);
    lemma_mul_is_commutative(xp - 1, f);
    lemma_factorial_coprime(p, k);
    lemma_euclid(p, f, xp - 1);
    lemma_fundamental_div_mod(xp - 1, pi);
    lemma_fundamental_div_mod_converse_mod(xp, pi, (xp - 1) / pi, 1);
}

/// `lcm(a, b)` is `a` times a whole number.
proof fn lemma_lcm_multiple(a: nat, b: nat)
    requires
        a > 0,
        b > 0,
    ensures
        lcm_spec(a, b) == a * (b / gcd_spec(a, b)),
        b / gcd_spec(a, b) >= 0,
{
    lemma_gcd_divides(a, b);
    let g = gcd_spec(a, b) as int;
    lemma_fundamental_div_mod(b as int, g);
    let t = b as int / g;
    lemma_div_pos_is_pos(b as int, g);
    assert(a * b == (a * t) * g) by (nonlinear_arith)
        requires
            b == g * t + 0,
    ;
    lemma_fundamental_div_mod_converse_div((a * b) as int, g, a * t, 0);
}

/// `x^λ ≡ 1 (mod p)` when `p − 1` divides `λ`, for a prime `p` not dividing `x`.
proof fn lemma_power_of_order(x: int, p: nat, t: nat)
    requires
        is_prime(p as int),
        x % (p as int) != 0,
    ensures
        pow(x, ((p - 1) as nat * t) as nat) % (p as int) == 1,
{
    lemma_fermat(x, p);
    lemma_pow_multiplies(x, (p - 1) as nat, t);
    lemma_pow_mod_noop(pow(x, (p - 1) as nat), t, p as int);
    lemma1_pow(t);
    lemma_small_mod(1, p);
}

/// Carmichael's bound for `n = p·q` with distinct primes: every `x` coprime
/// to `n` has `x^lcm(p−1, q−1) ≡ 1 (mod n)`.
pub proof fn lemma_carmichael(p: nat, q: nat, x: nat)
    requires
        is_prime(p as int),
        is_prime(q as int),
        p != q,
        gcd_spec(x, p * q) == 1,
    ensures
        pow(x as int, lcm_spec((p - 1) as nat, (q - 1) as nat) as nat) % ((p * q) as int) == 1,
{
    let (a, b) = ((p - 1) as nat, (q - 1) as nat);
    let lambda = lcm_spec(a, b);
    let n = p * q;
    lemma_mod_multiples_basic(q as int, p as int);
    lemma_mod_multiples_basic(p as int, q as int);
    assert(n % p == 0 && n % q == 0) by {
        lemma_mul_is_commutative(p as int, q as int);
    };
    lemma_coprime_not_multiple(x, n, p);
    lemma_coprime_not_multiple(x, n, q);
    lemma_lcm_multiple(a, b);
    lemma_lcm_multiple(b, a);
    assert(gcd_spec(a, b) == gcd_spec(b, a)) by {
        lemma_gcd_symmetric(a, b);
    };
    assert(lcm_spec(a, b) == lcm_spec(b, a)) by {
        lemma_mul_is_commutative(a as int, b as int);
    };
    let t1 = (b / gcd_spec(a, b)) as nat;
    let t2 = (a / gcd_spec(b, a)) as nat;
    lemma_power_of_order(x as int, p, t1);
    lemma_power_of_order(x as int, q, t2);
    let y = pow(x as int, lambda as nat) - 1;
    lemma_sub_mod_noop(pow(x as int, lambda as nat), 1, p as int);
    lemma_sub_mod_noop(pow(x as int, lambda as nat), 1, q as int);
    lemma_small_mod(1, p);
    lemma_small_mod(1, q);
    lemma_small_mod(0, p);
    lemma_small_mod(0, q);
    // y = p·k, and q divides p·k but not p.
    lemma_fundamental_div_mod(y, p as int);
    let k = y / (p as int);
    if p % q == 0 {
        lemma_mod_is_zero(p, q);
    }
    assert((p as int) * k == y);
    lemma_euclid(q, p as int, k);
    lemma_fundamental_div_mod(k, q as int);
    let k2 = k / (q as int);
    assert(y == k2 * (n as int) + 0) by (nonlinear_arith)
        requires
            y == (p as int) * k,
            k == (q as int) * k2 + 0,
            n == p * q,
    ;
    assert(n > 1) by (nonlinear_arith)
        requires
            p > 1,
            q > 1,
            n == p * q,
    ;
    lemma_fundamental_div_mod_converse_mod(y + 1, n as int, k2, 1);
}

/// `gcd(a, b) == gcd(b, a)`.
proof fn lemma_gcd_symmetric(a: nat, b: nat)
    ensures
        gcd_spec(a, b) == gcd_spec(b, a),
{
    if a > 0 && b > 0 {
        lemma_gcd_divides(a, b);
        lemma_gcd_divides(b, a);
        lemma_bezout(a, b);
        lemma_bezout(b, a);
        let (g, h) = (gcd_spec(a, b) as int, gcd_spec(b, a) as int);
        let (x, y) = bezout(a, b);
        let (u, v) = bezout(b, a);
        // each divides the other's Bezout combination
        lemma_divides_sum(h, a as int, x, 0);
        lemma_divides_sum(h, b as int, y, a * x + 0);
        lemma_divides_sum(g, b as int, u, 0);
        lemma_divides_sum(g, a as int, v, b * u + 0);
        assert(b * y + (a * x + 0) == g);
        assert(a * v + (b * u + 0) == h);
        lemma_mod_is_zero(g as nat, h as nat);
        lemma_mod_is_zero(h as nat, g as nat);
    } else if a == 0 && b > 0 {
        lemma_small_mod(0, b);
        assert(gcd_spec(b, 0) == b);
    } else if b == 0 && a > 0 {
        lemma_small_mod(0, a);
        assert(gcd_spec(0, a) == gcd_spec(a, 0));
    }
}

/// A value coprime to `m` has an inverse modulo `m`, which `inv_spec` names.
pub proof fn lemma_inverse_exists(x: nat, m: nat)
    requires
        m > 0,
        gcd_spec(x, m) == 1,
    ensures
        is_inverse(x as int, m as int, inv_spec(x as int, m as int)),
{
    lemma_bezout(x, m);
    let (a, b) = bezout(x, m);
    let mi = m as int;
    let i = a % mi;
    lemma_mod_bound(a, mi);
    lemma_mul_mod_noop_right(x as int, a, mi);
    assert(x * a == 1 + (-b) * mi) by (nonlinear_arith)
        requires
            x * a + m * b == 1,
            mi == m,
    ;
    lemma_mod_multiples_vanish(-b, 1, mi);
    assert(is_inverse(x as int, mi, i));
}

} // verus!
