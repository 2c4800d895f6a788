use vstd::prelude::*;

verus! {

/// `d` divides `n` evenly.
pub open spec fn divides(d: int, n: int) -> bool {
    n % d == 0
}

/// `x` has no divisor other than one and itself.
pub open spec fn is_prime_spec(x: int) -> bool {
    &&& 2 <= x
    &&& forall|d: int| 1 < d < x ==> !divides(d, x)
}

/// Divisibility runs through a middle term.
proof fn lemma_divides_transitive(a: int, b: int, c: int)
    requires
        0 < a,
        0 < b,
        0 < c,
        divides(a, b),
        divides(b, c),
    ensures
        divides(a, c),
{
    vstd::arithmetic::div_mod::lemma_fundamental_div_mod(b, a);
    vstd::arithmetic::div_mod::lemma_fundamental_div_mod(c, b);
    let q1 = b / a;
    let q2 = c / b;
    assert(c == a * (q1 * q2)) by (nonlinear_arith)
        requires
            b == a * q1,
            c == b * q2,
    ;
    assert(0 <= q1 * q2) by (nonlinear_arith)
        requires
            0 <= q1,
            0 <= q2,
    ;
    vstd::arithmetic::div_mod::lemma_fundamental_div_mod_converse(c, a, q1 * q2, 0);
}

/// Bezout coefficients: some common divisor of `a` and `b` is an integer
/// combination of them; it is `a` itself when `b` is zero.
proof fn lemma_bezout(a: int, b: int) -> (r: (int, int, int))
    requires
        0 < a,
        0 <= b,
    ensures
        ({
            let (g, u, v) = r;
            &&& 1 <= g
            &&& divides(g, a)
            &&& (0 < b ==> divides(g, b))
            &&& u * a + v * b == g
        }),
    decreases b,
{
    if b == 0 {
        vstd::arithmetic::div_mod::lemma_fundamental_div_mod_converse(a, a, 1, 0);
        (a, 1, 0)
    } else {
        vstd::arithmetic::div_mod::lemma_fundamental_div_mod(a, b);
        vstd::arithmetic::div_mod::lemma_mod_bound(a, b);
        let q = a / b;
        let rr = a % b;
        let (g, u1, v1) = lemma_bezout(b, rr);
        vstd::arithmetic::div_mod::lemma_fundamental_div_mod(b, g);
        assert(b == g * (b / g));
        if rr > 0 {
            vstd::arithmetic::div_mod::lemma_fundamental_div_mod(rr, g);
            assert(rr == g * (rr / g));
            assert(a == g * ((b / g) * q + rr / g)) by (nonlinear_arith)
                requires
                    a == b * q + rr,
                    b == g * (b / g),
                    rr == g * (rr / g),
            ;
            assert(0 <= (b / g) * q + rr / g) by (nonlinear_arith)
                requires
                    0 <= b / g,
                    0 <= q,
                    0 <= rr / g,
            ;
            vstd::arithmetic::div_mod::lemma_fundamental_div_mod_converse(
                a,
                g,
                (b / g) * q + rr / g,
                0,
            );
        } else {
            assert(a == g * ((b / g) * q)) by (nonlinear_arith)
                requires
                    a == b * q + rr,
                    rr == 0,
                    b == g * (b / g),
            ;
            assert(0 <= (b / g) * q) by (nonlinear_arith)
                requires
                    0 <= b / g,
                    0 <= q,
            ;
            vstd::arithmetic::div_mod::lemma_fundamental_div_mod_converse(a, g, (b / g) * q, 0);
        }
        assert(u1 * b + v1 * rr == g);
        assert(v1 * a + (u1 - v1 * q) * b == g) by (nonlinear_arith)
            requires
                u1 * b + v1 * rr == g,
                a == b * q + rr,
        ;
        (g, v1, u1 - v1 * q)
    }
}

/// A positive divisor of a positive number is no larger than it.
proof fn lemma_divisor_le(d: int, n: int)
    requires
        0 < d,
        0 < n,
        divides(d, n),
    ensures
        d <= n,
{
    vstd::arithmetic::div_mod::lemma_fundamental_div_mod(n, d);
    assert(d <= n) by (nonlinear_arith)
        requires
            n == d * (n / d),
            0 < d,
            0 < n,
    ;
}

/// A prime dividing a product divides one of the factors.
proof fn lemma_euclid(p: int, m: int, b: int)
    requires
        is_prime_spec(p),
        0 < m,
        0 <= b,
        divides(p, m * b),
        !divides(p, m),
    ensures
        divides(p, b),
{
    let (g, u, v) = lemma_bezout(p, m);
    lemma_divisor_le(g, p);
    if 1 < g < p {
        assert(!divides(g, p));
    }
    if g == p {
        assert(divides(p, m));
    }
    assert(g == 1);
    vstd::arithmetic::div_mod::lemma_fundamental_div_mod(m * b, p);
    let t = (m * b) / p;
    assert(m * b == p * t);
    assert(0 <= t) by (nonlinear_arith)
        requires
            m * b == p * t,
            0 <= m * b,
            0 < p,
    ;
    assert(b == p * (u * b + v * t)) by (nonlinear_arith)
        requires
            u * p + v * m == 1,
            m * b == p * t,
    ;
    assert(0 <= u * b + v * t) by (nonlinear_arith)
        requires
            b == p * (u * b + v * t),
            0 <= b,
            0 < p,
    ;
    vstd::arithmetic::div_mod::lemma_fundamental_div_mod_converse(b, p, u * b + v * t, 0);
}

/// A prime dividing a prime equals it.
proof fn lemma_prime_divisor_of_prime(p: int, m: int)
    requires
        is_prime_spec(p),
        is_prime_spec(m),
        divides(p, m),
    ensures
        p == m,
{
    lemma_divisor_le(p, m);
    if p < m {
        assert(!divides(p, m));
    }
}

/// A divisor of an odd number is odd.
proof fn lemma_odd_has_odd_divisors(x: int, d: int)
    requires
        0 < d,
        0 < x,
        x % 2 == 1,
        divides(d, x),
    ensures
        d % 2 == 1,
{
    if d % 2 == 0 {
        lemma_divides_transitive(2, d, x);
    }
}

/// A composite number has a divisor no larger than its square root.
proof fn lemma_small_divisor(x: int, d: int) -> (md: int)
    requires
        1 < d < x,
        divides(d, x),
    ensures
        1 < md,
        md * md <= x,
        divides(md, x),
{
    vstd::arithmetic::div_mod::lemma_fundamental_div_mod(x, d);
    let e = x / d;
    assert(1 < e) by (nonlinear_arith)
        requires
            x == d * e,
            1 < d < x,
    ;
    vstd::arithmetic::div_mod::lemma_fundamental_div_mod_converse(x, e, d, 0);
    if d * d <= x {
        d
    } else {
        assert(e * e <= x) by (nonlinear_arith)
            requires
                x == d * e,
                x < d * d,
                1 < d,
                1 < e,
        ;
        e
    }
}

/// The smallest factor of `x` greater than one: two for even `x`, else the
/// least odd divisor found by trial division, else `x` itself. For `x` of at
/// least two this is the smallest prime factor of `x`.
pub fn firstfac(x: u64) -> (r: u64)
    ensures
        divides(r as int, x as int),
        1 <= r,
        x >= 2 ==> 2 <= r <= x,
        x == 1 ==> r == 1,
        forall|d: int| 1 < d < r ==> !divides(d, x as int),
{
    if x % 2 == 0 {
        return 2;
    }
    let mut n: u64 = 3;
    while n <= x / n
        invariant
            x % 2 == 1,
            n % 2 == 1,
            3 <= n,
            forall|d: int| 1 < d < n ==> !divides(d, x as int),
        decreases x - n,
    {
        if x % n == 0 {
            proof {
                vstd::arithmetic::div_mod::lemma_fundamental_div_mod(x as int, n as int);
                assert(n <= x) by (nonlinear_arith)
                    requires
                        n <= x / n,
                        3 <= n,
                        x == n * (x / n) + x % n,
                        0 <= x % n < n,
                ;
            }
            return n;
        }
        proof {
            assert forall|d: int| 1 < d < n + 2 implies !divides(d, x as int) by {
                if divides(d, x as int) && d <= n + 1 {
                    lemma_odd_has_odd_divisors(x as int, d);
                }
            }
            vstd::arithmetic::div_mod::lemma_fundamental_div_mod(x as int, n as int);
            assert(n + 2 <= x) by (nonlinear_arith)
                requires
                    n <= x / n,
                    3 <= n,
                    x == n * (x / n) + x % n,
                    0 <= x % n < n,
                    x % n != 0,
                    x % 2 == 1,
            ;
        }
        n = n + 2;
    }
    proof {
        vstd::arithmetic::div_mod::lemma_fundamental_div_mod(x as int, n as int);
        if x >= 2 {
            assert forall|d: int| 1 < d < x implies !divides(d, x as int) by {
                if divides(d, x as int) {
                    let md = lemma_small_divisor(x as int, d);
                    lemma_odd_has_odd_divisors(x as int, md);
                    assert(3 <= md);
                    assert(md < n) by (nonlinear_arith)
                        requires
                            md * md <= x,
                            x / n < n,
                            x == n * (x / n) + x % n,
                            0 <= x % n < n,
                            0 < md,
                            0 < n,
                    ;
                }
            }
        }
        assert(x % x == 0) by (nonlinear_arith)
            requires
                1 <= x,
        ;
    }
    x
}

/// Whether `x` is prime.
pub fn is_prime(x: u64) -> (r: bool)
    ensures
        r == is_prime_spec(x as int),
{
    match x {
        0 | 1 => false,
        2 => true,
        n => {
            let f = firstfac(n);
            proof {
                if f == n {
                    assert(is_prime_spec(x as int));
                } else {
                    assert(1 < f < n);
                    assert(!is_prime_spec(x as int));
                }
            }
            f == n
        },
    }
}

/// The distinct prime factors of `x` in increasing order; empty when `x` is
/// zero or one. Each entry is a prime divisor of `x`, and the first is the
/// smallest prime factor.
#[verifier::rlimit(60)]
/// The list holds the number `p`.
pub open spec fn holds_factor(lst: Seq<u64>, p: int) -> bool {
    exists|ki: int| 0 <= ki < lst.len() && (#[trigger] lst[ki]) as int == p
}

pub fn prime_factors(x: u64) -> (r: Vec<u64>)
    ensures
        x <= 1 ==> r@.len() == 0,
        x >= 2 ==> r@.len() >= 1 && r@[0] == firstfac_spec_entry(x),
        forall|i: int| 0 <= i < r@.len() ==> is_prime_spec((#[trigger] r@[i]) as int),
        forall|i: int| 0 <= i < r@.len() ==> divides((#[trigger] r@[i]) as int, x as int),
        forall|i: int, k: int| 0 <= i < k < r@.len() ==> r@[i] < r@[k],
        x >= 2 ==> forall|p: u64|
            is_prime_spec(p as int) && #[trigger] divides(p as int, x as int) ==> r@.contains(p),
{
    if x <= 1 {
        return Vec::new();
    }
    let mut lst: Vec<u64> = Vec::new();
    let mut current = x;
    let ghost mut floor: int = 1;
    loop
        invariant_except_break
            2 <= current <= x,
            divides(current as int, x as int),
            1 <= floor,
            forall|d: int| 1 < d <= floor ==> !divides(d, current as int),
            forall|i: int| 0 <= i < lst@.len() ==> lst@[i] <= floor,
            lst@.len() == 0 ==> floor == 1 && current == x,
        invariant
            2 <= x,
            forall|i: int| 0 <= i < lst@.len() ==> is_prime_spec((#[trigger] lst@[i]) as int),
            forall|i: int| 0 <= i < lst@.len() ==> divides((#[trigger] lst@[i]) as int, x as int),
            forall|i: int, k: int| 0 <= i < k < lst@.len() ==> lst@[i] < lst@[k],
            lst@.len() >= 1 ==> lst@[0] == firstfac_spec_entry(x),
            forall|p: int|
                is_prime_spec(p) && #[trigger] divides(p, x as int) ==> divides(
                    p,
                    current as int,
                ) || holds_factor(lst@, p),
        ensures
            lst@.len() >= 1,
            lst@[0] == firstfac_spec_entry(x),
            forall|i: int| 0 <= i < lst@.len() ==> is_prime_spec((#[trigger] lst@[i]) as int),
            forall|i: int| 0 <= i < lst@.len() ==> divides((#[trigger] lst@[i]) as int, x as int),
            forall|i: int, k: int| 0 <= i < k < lst@.len() ==> lst@[i] < lst@[k],
            forall|p: int|
                is_prime_spec(p) && #[trigger] divides(p, x as int) ==> holds_factor(lst@, p),
        decreases current,
    {
        let m = firstfac(current);
        proof {
            assert(m > floor) by {
                if m <= floor {
                    assert(1 < m <= floor);
                    assert(!divides(m as int, current as int));
                }
            }
            assert(is_prime_spec(m as int)) by {
                assert forall|d: int| 1 < d < m implies !divides(d, m as int) by {
                    if divides(d, m as int) {
                        lemma_divides_transitive(d, m as int, current as int);
                    }
                }
            }
            lemma_divides_transitive(m as int, current as int, x as int);
            if lst@.len() == 0 {
                assert(current == x);
                lemma_firstfac_spec_entry(x, m);
            }
        }
        let ghost lst0 = lst@;
        lst.push(m);
        proof {
            assert forall|p: int|
                is_prime_spec(p) && #[trigger] divides(p, x as int) implies divides(
                p,
                current as int,
            ) || holds_factor(lst@, p) by {
                if !divides(p, current as int) {
                    let ki = choose|ki: int|
                        0 <= ki < lst0.len() && (#[trigger] lst0[ki]) as int == p;
                    assert(lst@[ki] as int == p);
                }
            }
        }
        if current == m {
            proof {
                assert forall|p: int|
                    is_prime_spec(p) && #[trigger] divides(p, x as int) implies holds_factor(
                    lst@,
                    p,
                ) by {
                    if divides(p, current as int) {
                        lemma_prime_divisor_of_prime(p, m as int);
                        assert(lst@[lst@.len() - 1] as int == p);
                    }
                }
            }
            break ;
        }
        let ghost cur0 = current;
        while current % m == 0
            invariant
                2 <= m,
                is_prime_spec(m as int),
                1 <= current,
                divides(current as int, cur0 as int),
                current <= cur0,
                forall|p: int|
                    is_prime_spec(p) && p != m as int && #[trigger] divides(p, cur0 as int)
                        ==> divides(p, current as int),
            decreases current,
        {
            proof {
                vstd::arithmetic::div_mod::lemma_fundamental_div_mod(current as int, m as int);
                assert(current / m < current && 1 <= current / m && divides(
                    (current / m) as int,
                    current as int,
                )) by (nonlinear_arith)
                    requires
                        2 <= m,
                        1 <= current,
                        current == m * (current / m) + current % m,
                        current % m == 0,
                ;
                lemma_divides_transitive((current / m) as int, current as int, cur0 as int);
                assert forall|p: int|
                    is_prime_spec(p) && p != m as int && #[trigger] divides(
                        p,
                        cur0 as int,
                    ) implies divides(p, (current / m) as int) by {
                    assert(divides(p, current as int));
                    if divides(p, m as int) {
                        lemma_prime_divisor_of_prime(p, m as int);
                    }
                    assert(current as int == (m as int) * ((current / m) as int));
                    lemma_euclid(p, m as int, (current / m) as int);
                }
            }
            current = current / m;
        }
        proof {
            lemma_divides_transitive(current as int, cur0 as int, x as int);
            assert forall|d: int| 1 < d <= m implies !divides(d, current as int) by {
                if divides(d, current as int) {
                    if d < m {
                        lemma_divides_transitive(d, current as int, cur0 as int);
                    }
                }
            }
            floor = m as int;
            assert(current < cur0) by {
                if current == cur0 {
                    assert(divides(m as int, current as int));
                }
            }
            assert forall|p: int|
                is_prime_spec(p) && #[trigger] divides(p, x as int) implies divides(
                p,
                current as int,
            ) || holds_factor(lst@, p) by {
                if divides(p, cur0 as int) && !holds_factor(lst@, p) {
                    if p == m as int {
                        assert(lst@[lst@.len() - 1] as int == p);
                    }
                }
            }
        }
        if current == 1 {
            proof {
                assert forall|p: int|
                    is_prime_spec(p) && #[trigger] divides(p, x as int) implies holds_factor(
                    lst@,
                    p,
                ) by {
                    if divides(p, current as int) {
                        assert(1int % p == 1) by (nonlinear_arith)
                            requires
                                p >= 2,
                        ;
                    }
                }
            }
            break ;
        }
    }
    proof {
        assert forall|p: u64|
            is_prime_spec(p as int) && #[trigger] divides(p as int, x as int) implies lst@.contains(
            p,
        ) by {
            let ki = choose|ki: int| 0 <= ki < lst@.len() && (#[trigger] lst@[ki]) as int == p;
            assert(lst@[ki] == p);
        }
    }
    lst
}

/// The value `firstfac` returns for `x`: named so that `prime_factors` can
/// promise its first entry without repeating the trial-division story.
#[verifier::opaque]
pub open spec fn firstfac_spec_entry(x: u64) -> u64 {
    choose|r: u64|
        {
            &&& divides(r as int, x as int)
            &&& 1 <= r
            &&& (x >= 2 ==> 2 <= r <= x)
            &&& (x == 1 ==> r == 1)
            &&& forall|d: int| 1 < d < r ==> !divides(d, x as int)
        }
}

/// Any value meeting `firstfac`'s contract equals `firstfac_spec_entry`.
proof fn lemma_firstfac_spec_entry(x: u64, m: u64)
    requires
        x >= 2,
        divides(m as int, x as int),
        2 <= m <= x,
        forall|d: int| 1 < d < m ==> !divides(d, x as int),
    ensures
        m == firstfac_spec_entry(x),
{
    reveal(firstfac_spec_entry);
    let r = firstfac_spec_entry(x);
    assert(divides(r as int, x as int) && 1 <= r && 2 <= r <= x && (forall|d: int|
        1 < d < r ==> !divides(d, x as int))) by {
        assert({
            &&& divides(m as int, x as int)
            &&& 1 <= m
            &&& (x >= 2 ==> 2 <= m <= x)
            &&& (x == 1 ==> m == 1)
            &&& forall|d: int| 1 < d < m ==> !divides(d, x as int)
        });
    }
    if r < m {
        assert(!divides(r as int, x as int));
    }
    if m < r {
        assert(!divides(m as int, x as int));
    }
}

} // verus!
