//! Short Weierstrass curves `y² = x³ + a·x + b` over a prime field: point
//! membership, the group law, scalar multiplication, enumeration of the
//! group and its generators, and key pairs.
use crate::error::CryptoError;
use crate::random::sample_range;
use rand::rngs::StdRng;
use crate::arithmetic::{
    add_mod, inv_mod, inv_spec, is_prime, lemma_mod_linear, lemma_prime_coprime,
    mul_mod, reduce_signed, sub_mod,
};
use vstd::arithmetic::div_mod::*;
use vstd::prelude::*;
use vstd::string::StringExecFns;

verus! {

/// The decimal digit for `d < 10`.
pub open spec fn digit_char(d: nat) -> char {
    if d == 0 {
        '0'
    } else if d == 1 {
        '1'
    } else if d == 2 {
        '2'
    } else if d == 3 {
        '3'
    } else if d == 4 {
        '4'
    } else if d == 5 {
        '5'
    } else if d == 6 {
        '6'
    } else if d == 7 {
        '7'
    } else if d == 8 {
        '8'
    } else {
        '9'
    }
}

/// The decimal notation of `n`, without leading zeros.
pub open spec fn decimal_spec(n: nat) -> Seq<char>
    decreases n,
{
    if n < 10 {
        seq![digit_char(n)]
    } else {
        decimal_spec(n / 10).push(digit_char(n % 10))
    }
}

/// Relies on `ToString` for `u64` (its `Display`): the decimal notation.
#[verifier::external_body]
fn decimal(n: u64) -> (r: String)
    ensures
        r@ == decimal_spec(n as nat),
{
    n.to_string()
}

/// A point of the group: the point at infinity, marked by `infinity`, or
/// the affine point `(x, y)`. The point at infinity is the identity of the
/// group and is kept with both coordinates zero.
#[derive(Debug, Clone, Copy, PartialEq, Eq, Structural)]
pub struct Point {
    pub x: u64,
    pub y: u64,
    pub infinity: bool,
}

/// The point at infinity.
pub open spec fn identity() -> Point {
    Point { x: 0, y: 0, infinity: true }
}

pub open spec fn is_identity(pt: Point) -> bool {
    pt.infinity
}

/// The affine point `(x, y)`.
pub open spec fn affine(x: u64, y: u64) -> Point {
    Point { x, y, infinity: false }
}

impl Point {
    /// The affine point `(new_x, new_y)`.
    pub fn new(new_x: u64, new_y: u64) -> (r: Self)
        ensures
            r == affine(new_x, new_y),
    {
        Point { x: new_x, y: new_y, infinity: false }
    }

    /// The point at infinity.
    pub fn infinity() -> (r: Self)
        ensures
            r == identity(),
    {
        Point { x: 0, y: 0, infinity: true }
    }

    /// The text `(x, y)` of an affine point, `∞` for the point at infinity.
    pub fn to_string(&self) -> (r: String)
        ensures
            self.infinity ==> r@ == seq!['∞'],
            !self.infinity ==> r@ == seq!['('] + decimal_spec(self.x as nat) + seq![',', ' ']
                + decimal_spec(self.y as nat) + seq![')'],
    {
        if self.infinity {
            proof {
                reveal_strlit("∞");
            }
            return String::from_str("∞");
        }
        let mut s = String::from_str("(");
        let dx = decimal(self.x);
        let dy = decimal(self.y);
        s.append(dx.as_str());
        s.append(", ");
        s.append(dy.as_str());
        s.append(")");
        proof {
            reveal_strlit("(");
            reveal_strlit(", ");
            reveal_strlit(")");
        }
        s
    }
}

/// A secret scalar and the public point it gives.
#[derive(Debug, Clone, Copy)]
pub struct KeyPair {
    pub sk: u64,
    pub pk: Point,
}

/// The curve `y² = x³ + a·x + b` over the field of integers modulo the prime
/// `p`; `a` and `b` are kept as residues.
#[derive(Debug)]
pub struct EcWei {
    a: u64,
    b: u64,
    p: u64,
}

impl EcWei {
    #[verifier::type_invariant]
    spec fn well_formed(self) -> bool {
        is_prime(self.p as int) && self.a < self.p && self.b < self.p
    }

    /// The coefficient `a`, as a residue.
    pub closed spec fn spec_a(&self) -> int {
        self.a as int
    }

    /// The coefficient `b`, as a residue.
    pub closed spec fn spec_b(&self) -> int {
        self.b as int
    }

    /// The prime modulus.
    pub closed spec fn spec_p(&self) -> int {
        self.p as int
    }

    /// `pt` is well formed for this curve: an affine point has both
    /// coordinates residues modulo `p`, and the point at infinity has both
    /// coordinates zero.
    pub open spec fn in_field(&self, pt: Point) -> bool {
        if pt.infinity {
            pt.x == 0 && pt.y == 0
        } else {
            pt.x < self.spec_p() && pt.y < self.spec_p()
        }
    }

    /// `(x, y)` satisfies `y² ≡ x³ + a·x + b (mod p)`.
    pub open spec fn on_curve(&self, x: int, y: int) -> bool {
        (y * y) % self.spec_p() == (x * x * x + self.spec_a() * x + self.spec_b()) % self.spec_p()
    }

    /// The inverse of a point under the group law.
    pub open spec fn neg_spec(&self, pt: Point) -> Point {
        if is_identity(pt) {
            pt
        } else {
            affine(pt.x, ((self.spec_p() - pt.y) % self.spec_p()) as u64)
        }
    }

    /// Slope of the chord through `pa` and `pb`, or of the tangent at `pa`
    /// when the two are equal.
    pub open spec fn slope(&self, pa: Point, pb: Point) -> int {
        let p = self.spec_p();
        if pa != pb {
            ((pb.y - pa.y) * inv_spec((pb.x - pa.x) % p, p)) % p
        } else {
            ((3 * pa.x * pa.x + self.spec_a()) * inv_spec((2 * pa.y) % p, p)) % p
        }
    }

    /// The group law, case by case: an identity operand gives the other
    /// operand; two points with equal `x` and opposite `y`, or equal `x` and
    /// different `y`, give the identity; otherwise the chord-and-tangent rule.
    pub open spec fn add_spec(&self, pa: Point, pb: Point) -> Point {
        let p = self.spec_p();
        if is_identity(pa) {
            pb
        } else if is_identity(pb) {
            pa
        } else if pa.x == pb.x && (pa.y + pb.y) % p == 0 {
            identity()
        } else if pa.x == pb.x && pa.y != pb.y {
            identity()
        } else {
            let l = self.slope(pa, pb);
            let x3 = (l * l - pa.x - pb.x) % p;
            let y3 = (l * (pa.x - x3) - pa.y) % p;
            affine(x3 as u64, y3 as u64)
        }
    }

    /// Double-and-add over the binary digits of `k`, least significant
    /// first: `acc` collects the powers `base, 2·base, 4·base, …` that
    /// belong to the set bits of `k`.
    pub open spec fn ladder(&self, acc: Point, base: Point, k: nat) -> Point
        decreases k,
    {
        if k == 0 {
            acc
        } else {
            let next = if k % 2 == 1 {
                self.add_spec(acc, base)
            } else {
                acc
            };
            self.ladder(next, self.add_spec(base, base), k / 2)
        }
    }

    /// `k · pt`, by double-and-add from the identity.
    pub open spec fn mul_spec(&self, pt: Point, k: nat) -> Point {
        self.ladder(identity(), pt, k)
    }

    /// The points `(x, y)` on the curve with `y < n`, in increasing `y`.
    pub open spec fn column(&self, x: nat, n: nat) -> Seq<Point>
        decreases n,
    {
        if n == 0 {
            seq![]
        } else {
            let prev = self.column(x, (n - 1) as nat);
            if self.on_curve(x as int, n - 1) {
                prev.push(affine(x as u64, (n - 1) as u64))
            } else {
                prev
            }
        }
    }

    /// The points on the curve with both coordinates below `p` and `x < n`,
    /// ordered by `x`, then by `y`.
    pub open spec fn grid(&self, n: nat) -> Seq<Point>
        decreases n,
    {
        if n == 0 {
            seq![]
        } else {
            self.grid((n - 1) as nat) + self.column((n - 1) as nat, self.spec_p() as nat)
        }
    }

    /// Every affine point of the curve over the field, the identity aside.
    pub open spec fn points_spec(&self) -> Seq<Point> {
        self.grid(self.spec_p() as nat)
    }

    /// `pt` generates a group of order `n`: no proper divisor `k` of `n`
    /// with `1 < k < n` has `k · pt` equal to the identity.
    pub open spec fn is_generator(&self, pt: Point, n: nat) -> bool {
        forall|k: nat| 1 < k < n && n % k == 0 ==> !is_identity(#[trigger] self.mul_spec(pt, k))
    }

    /// The members of `pts` that generate a group of order `n`, in order.
    pub open spec fn generators_in(&self, pts: Seq<Point>, n: nat) -> Seq<Point> {
        pts.filter(|pt: Point| self.is_generator(pt, n))
    }

    /// `pt` is an element of the group: the identity, or a point of the
    /// curve with both coordinates residues modulo `p`.
    pub open spec fn contains_spec(&self, pt: Point) -> bool {
        self.in_field(pt) && (is_identity(pt) || self.on_curve(pt.x as int, pt.y as int))
    }

    /// The key pair with secret `sk` on the generator `g`.
    pub open spec fn key_pair_spec(&self, g: Point, sk: u64) -> KeyPair {
        KeyPair { sk, pk: self.mul_spec(g, sk as nat) }
    }

    /// The curve with coefficients `a` and `b`, taken modulo the prime `p`.
    pub fn new(new_a: i64, new_b: i64, new_p: u64) -> (r: Self)
        requires
            is_prime(new_p as int),
        ensures
            r.spec_a() == (new_a as int) % (new_p as int),
            r.spec_b() == (new_b as int) % (new_p as int),
            r.spec_p() == new_p,
    {
        let a = reduce_signed(new_a, new_p);
        let b = reduce_signed(new_b, new_p);
        EcWei { a, b, p: new_p }
    }

    /// Whether `point` is an affine point that satisfies the curve equation
    /// modulo `p`.
    pub fn is_point(&self, point: &Point) -> (r: bool)
        ensures
            r == (!point.infinity && self.on_curve(point.x as int, point.y as int)),
    {
        proof {
            use_type_invariant(self);
        }
        if point.infinity {
            return false;
        }
        let p = self.p;
        let (x, y) = (point.x, point.y);
        let lhs = mul_mod(y, y, p);
        let x2 = mul_mod(x, x, p);
        let x3 = mul_mod(x2, x, p);
        let ax = mul_mod(self.a, x, p);
        let rhs = add_mod(add_mod(x3, ax, p), self.b, p);
        proof {
            let (xi, pi) = (x as int, p as int);
            lemma_mul_mod_noop_left(xi * xi, xi, pi);
            lemma_mod_linear(xi * xi * xi, self.a * xi, pi);
            lemma_mod_linear(xi * xi * xi + self.a * xi, self.b as int, pi);
            lemma_small_mod(self.b as nat, p as nat);
        }
        lhs == rhs
    }

    /// Adds two points by the group law of `add_spec`. A prime modulus makes
    /// every slope denominator that the case analysis leaves invertible.
    pub fn point_add(&self, point_a: &Point, point_b: &Point) -> (r: Point)
        requires
            self.in_field(*point_a),
            self.in_field(*point_b),
        ensures
            r == self.add_spec(*point_a, *point_b),
            self.in_field(r),
    {
        proof {
            use_type_invariant(self);
        }
        let p = self.p;
        let (pa, pb) = (*point_a, *point_b);
        if pa.infinity {
            return pb;
        }
        if pb.infinity {
            return pa;
        }
        if pa.x == pb.x && add_mod(pa.y, pb.y, p) == 0 {
            return Point::infinity();
        }
        if pa.x == pb.x && pa.y != pb.y {
            return Point::infinity();
        }
        let ghost pi = p as int;
        let l = if pa.x != pb.x {
            let num = sub_mod(pb.y, pa.y, p);
            let den = sub_mod(pb.x, pa.x, p);
            proof {
                if den == 0 {
                    let d = pb.x - pa.x;
                    lemma_fundamental_div_mod(d, pi);
                    assert(d == 0) by (nonlinear_arith)
                        requires
                            d == pi * (d / pi) + 0,
                            -pi < d < pi,
                    ;
                }
                lemma_prime_coprime(den as nat, p as nat);
            }
            let inv = inv_mod(den, p).unwrap();
            proof {
                lemma_mul_mod_noop_left(pb.y - pa.y, inv as int, pi);
            }
            mul_mod(num, inv, p)
        } else {
            let xx = mul_mod(pa.x, pa.x, p);
            let xx3 = mul_mod(3, xx, p);
            let num = add_mod(xx3, self.a, p);
            let den = add_mod(pa.y, pa.y, p);
            proof {
                lemma_prime_coprime(den as nat, p as nat);
            }
            let inv = inv_mod(den, p).unwrap();
            proof {
                let xi = pa.x as int;
                lemma_mul_mod_noop_right(3, xi * xi, pi);
                assert(3 * (xi * xi) == 3 * xi * xi) by (nonlinear_arith);
                lemma_mod_linear(3 * xi * xi, self.a as int, pi);
                lemma_small_mod(self.a as nat, p as nat);
                lemma_mul_mod_noop_left(3 * xi * xi + self.a, inv as int, pi);
            }
            mul_mod(num, inv, p)
        };
        let ll = mul_mod(l, l, p);
        let x3 = sub_mod(sub_mod(ll, pa.x, p), pb.x, p);
        let dx = sub_mod(pa.x, x3, p);
        let y3 = sub_mod(mul_mod(l, dx, p), pa.y, p);
        proof {
            let li = l as int;
            lemma_small_mod(pa.x as nat, p as nat);
            lemma_small_mod(pb.x as nat, p as nat);
            lemma_small_mod(pa.y as nat, p as nat);
            lemma_mod_linear(li * li, pa.x as int, pi);
            lemma_mod_linear(li * li - pa.x, pb.x as int, pi);
            lemma_mul_mod_noop_right(li, pa.x - x3, pi);
            lemma_mod_linear(li * (pa.x - x3), pa.y as int, pi);
        }
        Point::new(x3, y3)
    }

    /// Whether `point` is an element of the group.
    pub fn contains(&self, point: &Point) -> (r: bool)
        ensures
            r == self.contains_spec(*point),
    {
        if point.infinity {
            return point.x == 0 && point.y == 0;
        }
        if point.x >= self.p || point.y >= self.p {
            return false;
        }
        self.is_point(point)
    }

    /// The key pair whose secret is `sk` and whose public point is
    /// `sk · generator`.
    pub fn key_pair_from_secret(&self, generator: &Point, sk: u64) -> (r: KeyPair)
        requires
            self.in_field(*generator),
        ensures
            r == self.key_pair_spec(*generator, sk),
    {
        let pk = self.scalar_mul(generator, sk);
        KeyPair { sk, pk }
    }

    /// A key pair on `generator` whose secret is drawn uniformly from
    /// `[1, N)`, `N` being the order of the group (`group_points().len() + 1`).
    /// Fails with `InsufficientGroupOrder` when the identity is the only
    /// element.
    pub fn gen_key_pair(&self, generator: &Point, rng: &mut StdRng) -> (r: Result<
        KeyPair,
        CryptoError,
    >)
        requires
            self.in_field(*generator),
            self.points_spec().len() + 1 <= u64::MAX,
        ensures
            r.is_err() <==> self.points_spec().len() == 0,
            r matches Err(e) ==> e == CryptoError::InsufficientGroupOrder,
            r matches Ok(kp) ==> 1 <= kp.sk <= self.points_spec().len() && kp
                == self.key_pair_spec(*generator, kp.sk),
    {
        let points = self.group_points();
        let ord: u64 = points.len() as u64 + 1;
        if ord <= 1 {
            return Err(CryptoError::InsufficientGroupOrder);
        }
        let sk = sample_range(rng, 1, ord);
        Ok(self.key_pair_from_secret(generator, sk))
    }

    /// `k · point` by double-and-add over the binary digits of `k`.
    pub fn scalar_mul(&self, point: &Point, d: u64) -> (r: Point)
        requires
            self.in_field(*point),
        ensures
            r == self.mul_spec(*point, d as nat),
            self.in_field(r),
    {
        proof {
            use_type_invariant(self);
        }
        let mut n = d;
        let mut point_q = *point;
        let mut point_r = Point::infinity();
        while n > 0
            invariant
                self.in_field(point_q),
                self.in_field(point_r),
                self.ladder(point_r, point_q, n as nat) == self.mul_spec(*point, d as nat),
            decreases n,
        {
            if n % 2 == 1 {
                point_r = self.point_add(&point_r, &point_q);
            }
            point_q = self.point_add(&point_q, &point_q);
            n = n / 2;
        }
        point_r
    }

    /// Every point `(x, y)` with `0 <= x, y < p` on the curve, ordered by `x`
    /// and then `y`; the identity is not listed. This takes `p²` membership
    /// tests and is meant for small fields.
    pub fn group_points(&self) -> (r: Vec<Point>)
        ensures
            r@ == self.points_spec(),
            forall|i: int| 0 <= i < r.len() ==> self.in_field(#[trigger] r@[i]),
    {
        proof {
            use_type_invariant(self);
        }
        let p = self.p;
        let mut points: Vec<Point> = Vec::new();
        let mut x: u64 = 0;
        while x < p
            invariant
                p == self.p,
                x <= p,
                points@ == self.grid(x as nat),
                forall|i: int| 0 <= i < points.len() ==> self.in_field(#[trigger] points@[i]),
            decreases p - x,
        {
            let mut y: u64 = 0;
            while y < p
                invariant
                    p == self.p,
                    x < p,
                    y <= p,
                    points@ == self.grid(x as nat) + self.column(x as nat, y as nat),
                    forall|i: int| 0 <= i < points.len() ==> self.in_field(#[trigger] points@[i]),
                decreases p - y,
            {
                let point = Point::new(x, y);
                if self.is_point(&point) {
                    points.push(point);
                    assert(self.in_field(points@[points.len() - 1]));
                    assert(points@ =~= self.grid(x as nat) + self.column(x as nat, (y + 1) as nat));
                } else {
                    assert(points@ =~= self.grid(x as nat) + self.column(x as nat, (y + 1) as nat));
                }
                y = y + 1;
            }
            assert(self.grid((x + 1) as nat) == self.grid(x as nat) + self.column(x as nat, p as nat));
            x = x + 1;
        }
        points
    }

    /// The members of `group_points` that generate the group, taking its
    /// order to be `group_points.len() + 1` (the identity included).
    pub fn get_base_points(&self, group_points: &Vec<Point>) -> (r: Vec<Point>)
        requires
            group_points.len() + 1 <= u64::MAX,
            forall|i: int| 0 <= i < group_points.len() ==> self.in_field(#[trigger] group_points@[i]),
        ensures
            r@ == self.generators_in(group_points@, (group_points.len() + 1) as nat),
    {
        let n: u64 = group_points.len() as u64 + 1;
        let ghost pred = |pt: Point| self.is_generator(pt, n as nat);
        let mut generator_points: Vec<Point> = Vec::new();
        let mut i: usize = 0;
        while i < group_points.len()
            invariant
                i <= group_points.len(),
                n == group_points.len() + 1,
                pred == (|pt: Point| self.is_generator(pt, n as nat)),
                forall|j: int| 0 <= j < group_points.len() ==> self.in_field(#[trigger] group_points@[j]),
                generator_points@ == group_points@.subrange(0, i as int).filter(pred),
            decreases group_points.len() - i,
        {
            let point = group_points[i];
            let mut is_generator = true;
            let mut k: u64 = 2;
            while k < n
                invariant_except_break
                    is_generator,
                invariant
                    2 <= k <= n,
                    self.in_field(point),
                    forall|j: nat| 1 < j < k && (n as nat) % j == 0 ==> !is_identity(
                        #[trigger] self.mul_spec(point, j),
                    ),
                ensures
                    is_generator ==> k == n,
                    !is_generator ==> 1 < k < n && (n as nat) % (k as nat) == 0 && is_identity(
                        self.mul_spec(point, k as nat),
                    ),
                decreases n - k,
            {
                if n % k == 0 {
                    let result = self.scalar_mul(&point, k);
                    if result.infinity {
                        is_generator = false;
                        break;
                    }
                }
                k = k + 1;
            }
            proof {
                let s = group_points@.subrange(0, i + 1);
                assert(s.drop_last() =~= group_points@.subrange(0, i as int));
                assert(s.last() == point);
                if is_generator {
                    assert(pred(point));
                } else {
                    assert(!is_identity(self.mul_spec(point, k as nat)) ==> !pred(point));
                }
                reveal(Seq::filter);
                assert(s.filter(pred) == if pred(point) {
                    s.drop_last().filter(pred).push(point)
                } else {
                    s.drop_last().filter(pred)
                });
            }
            if is_generator {
                generator_points.push(point);
            }
            i = i + 1;
        }
        proof {
            assert(group_points@.subrange(0, group_points.len() as int) =~= group_points@);
            assert(pred =~= (|pt: Point| self.is_generator(pt, (group_points.len() + 1) as nat)));
        }
        generator_points
    }

    /// The addition table of `points`: row `i`, column `j` holds
    /// `points[i] + points[j]`.
    pub fn cayley_table(&self, points: &Vec<Point>) -> (r: Vec<Vec<Point>>)
        requires
            forall|i: int| 0 <= i < points.len() ==> self.in_field(#[trigger] points@[i]),
        ensures
            r.len() == points.len(),
            forall|i: int| 0 <= i < r.len() ==> (#[trigger] r@[i]).len() == points.len(),
            forall|i: int, j: int|
                0 <= i < r.len() && 0 <= j < points.len() ==> #[trigger] r@[i]@[j]
                    == self.add_spec(points@[i], points@[j]),
    {
        let mut table: Vec<Vec<Point>> = Vec::new();
        let mut i: usize = 0;
        while i < points.len()
            invariant
                i <= points.len(),
                forall|k: int| 0 <= k < points.len() ==> self.in_field(#[trigger] points@[k]),
                table.len() == i,
                forall|k: int| 0 <= k < i ==> (#[trigger] table@[k]).len() == points.len(),
                forall|k: int, j: int|
                    0 <= k < i && 0 <= j < points.len() ==> #[trigger] table@[k]@[j]
                        == self.add_spec(points@[k], points@[j]),
            decreases points.len() - i,
        {
            let mut row: Vec<Point> = Vec::new();
            let mut j: usize = 0;
            while j < points.len()
                invariant
                    i < points.len(),
                    j <= points.len(),
                    forall|k: int| 0 <= k < points.len() ==> self.in_field(#[trigger] points@[k]),
                    row.len() == j,
                    forall|k: int| 0 <= k < j ==> row@[k] == self.add_spec(points@[i as int], points@[k]),
                decreases points.len() - j,
            {
                let sum = self.point_add(&points[i], &points[j]);
                row.push(sum);
                j = j + 1;
            }
            table.push(row);
            i = i + 1;
        }
        table
    }
}

/// The identity is neutral on the right, and a point added to its negation
/// gives the identity.
pub proof fn lemma_identity_and_negation(curve: EcWei, pt: Point)
    requires
        curve.in_field(pt),
    ensures
        curve.add_spec(pt, identity()) == pt,
        curve.add_spec(pt, curve.neg_spec(pt)) == identity(),
{
    let p = curve.spec_p();
    if !is_identity(pt) {
        let ny = (p - pt.y) % p;
        lemma_mod_linear(pt.y as int, p - pt.y, p);
        lemma_mod_self_0(p);
        if pt.y == 0 {
            assert(ny == 0);
        } else {
            lemma_small_mod((p - pt.y) as nat, p as nat);
        }
    }
}

/// Scalar multiplication at its edges: `0 · pt` is the identity,
/// `1 · pt` is `pt`, and every multiple of the identity is the identity.
pub proof fn lemma_scalar_mul_edges(curve: EcWei, pt: Point, k: nat)
    requires
        curve.in_field(pt),
    ensures
        curve.mul_spec(pt, 0) == identity(),
        curve.mul_spec(pt, 1) == pt,
        curve.mul_spec(identity(), k) == identity(),
{
    let next = curve.add_spec(identity(), pt);
    assert(curve.ladder(next, curve.add_spec(pt, pt), 0) == next);
    assert(curve.mul_spec(pt, 1) == curve.ladder(next, curve.add_spec(pt, pt), 0));
    lemma_ladder_of_identity(curve, k);
}

proof fn lemma_ladder_of_identity(curve: EcWei, k: nat)
    ensures
        curve.ladder(identity(), identity(), k) == identity(),
    decreases k,
{
    if k > 0 {
        lemma_ladder_of_identity(curve, k / 2);
    }
}

/// A column lists the points `(x, y)` on the curve with `y < n`.
proof fn lemma_column_members(curve: EcWei, x: nat, n: nat, pt: Point)
    requires
        x <= u64::MAX,
        n <= u64::MAX + 1,
    ensures
        curve.column(x, n).contains(pt) <==> (!pt.infinity && pt.x == x && pt.y < n && curve.on_curve(
            x as int,
            pt.y as int,
        )),
    decreases n,
{
    if n > 0 {
        let m = (n - 1) as nat;
        lemma_column_members(curve, x, m, pt);
        let prev = curve.column(x, m);
        let q = affine(x as u64, m as u64);
        if curve.on_curve(x as int, m as int) {
            assert(curve.column(x, n) == prev.push(q));
            if pt == q {
                assert(prev.push(q)[prev.len() as int] == pt);
            }
            if prev.push(q).contains(pt) && pt != q {
                let i = choose|i: int| 0 <= i < prev.push(q).len() && prev.push(q)[i] == pt;
                assert(prev[i] == pt);
            }
            if prev.contains(pt) {
                let i = choose|i: int| 0 <= i < prev.len() && prev[i] == pt;
                assert(prev.push(q)[i] == pt);
            }
        } else {
            assert(curve.column(x, n) == prev);
        }
        if !pt.infinity && pt.x == x && pt.y == m {
            assert(pt == q);
        }
    }
}

/// The grid up to `n` lists the points on the curve with `x < n` and
/// `y < p`.
proof fn lemma_grid_members(curve: EcWei, n: nat, pt: Point)
    requires
        n <= curve.spec_p(),
    ensures
        curve.grid(n).contains(pt) <==> (!pt.infinity && pt.x < n && pt.y < curve.spec_p()
            && curve.on_curve(
            pt.x as int,
            pt.y as int,
        )),
    decreases n,
{
    if n > 0 {
        let m = (n - 1) as nat;
        let p = curve.spec_p() as nat;
        lemma_grid_members(curve, m, pt);
        lemma_column_members(curve, m, p, pt);
        let a = curve.grid(m);
        let b = curve.column(m, p);
        if (a + b).contains(pt) {
            let i = choose|i: int| 0 <= i < (a + b).len() && (a + b)[i] == pt;
            if i < a.len() {
                assert(a[i] == pt);
            } else {
                assert(b[i - a.len()] == pt);
            }
        }
        if a.contains(pt) {
            let i = choose|i: int| 0 <= i < a.len() && a[i] == pt;
            assert((a + b)[i] == pt);
        }
        if b.contains(pt) {
            let i = choose|i: int| 0 <= i < b.len() && b[i] == pt;
            assert((a + b)[a.len() + i] == pt);
        }
    }
}

/// The enumerated group lists exactly the affine points with both
/// coordinates residues modulo `p` that satisfy the curve equation; the
/// point at infinity is not among them.
pub proof fn lemma_points_members(curve: EcWei, pt: Point)
    ensures
        curve.points_spec().contains(pt) <==> (!pt.infinity && curve.in_field(pt) && curve.on_curve(
            pt.x as int,
            pt.y as int,
        )),
{
    lemma_grid_members(curve, curve.spec_p() as nat, pt);
}

} // verus!
