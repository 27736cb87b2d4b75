//! The Chakravala driver: validation, the initial triple, and the
//! composition step repeated until k = 1.
use crate::bignum::{
    abs, big_abs, big_add, big_cmp, big_div, big_from_u64, big_mul, big_rem, big_sqrt, big_sub,
    is_floor_sqrt, trunc_div, BigNum,
};
use crate::error::PellError;
use crate::multiplier::{
    find_optimal_m, floor_sqrt, is_best_multiplier, lemma_best_multiplier_unique, lemma_floor_sqrt_is,
};
use core::cmp::Ordering;
use vstd::prelude::*;

verus! {

/// Number of composition steps after which the driver gives up.
pub const MAX_ITERATIONS: u64 = 10000;

/// `n` is the square of an integer.
pub open spec fn is_perfect_square(n: int) -> bool {
    exists|s: int| #[trigger] (s * s) == n
}

/// The k of the triple (a, b, k): a^2 - n*b^2.
pub open spec fn triple_k(n: int, a: int, b: int) -> int {
    a * a - n * b * b
}

/// (x, y) is a positive solution of x^2 - n*y^2 = 1.
pub open spec fn is_pell_solution(n: int, x: int, y: int) -> bool {
    x >= 1 && y >= 1 && triple_k(n, x, y) == 1
}

/// A non-negative `n` is a perfect square exactly when its floor square root squares to it.
pub proof fn lemma_square_iff_root(n: int, s: int)
    requires
        is_floor_sqrt(n, s),
    ensures
        is_perfect_square(n) == (s * s == n),
{
    if is_perfect_square(n) {
        let t = choose|t: int| #[trigger] (t * t) == n;
        let u = abs(t);
        assert(u * u == n) by (nonlinear_arith)
            requires
                t * t == n,
                u == abs(t),
        ;
        if u < s {
            assert(u * u < s * s) by (nonlinear_arith)
                requires
                    0 <= u < s,
            ;
        } else if u > s {
            assert((s + 1) * (s + 1) <= u * u) by (nonlinear_arith)
                requires
                    0 <= s + 1 <= u,
            ;
        }
    }
}

/// Division rounded toward zero undoes a multiplication.
pub proof fn lemma_trunc_div_exact(k: int, q: int)
    requires
        k != 0,
    ensures
        trunc_div(k * q, k) == q,
{
    let p = k * q;
    assert(abs(p) == abs(k) * abs(q)) by (nonlinear_arith)
        requires
            p == k * q,
    ;
    vstd::arithmetic::div_mod::lemma_div_multiples_vanish(abs(q), abs(k));
    assert(abs(k) * abs(q) == abs(q) * abs(k)) by (nonlinear_arith);
    if q == 0 {
        assert(p == 0) by (nonlinear_arith)
            requires
                p == k * q,
                q == 0,
        ;
    } else if k > 0 && q > 0 {
        assert(p > 0) by (nonlinear_arith)
            requires
                p == k * q,
                k > 0,
                q > 0,
        ;
    } else if k > 0 && q < 0 {
        assert(p < 0) by (nonlinear_arith)
            requires
                p == k * q,
                k > 0,
                q < 0,
        ;
    } else if k < 0 && q > 0 {
        assert(p < 0) by (nonlinear_arith)
            requires
                p == k * q,
                k < 0,
                q > 0,
        ;
    } else {
        assert(p > 0) by (nonlinear_arith)
            requires
                p == k * q,
                k < 0,
                q < 0,
        ;
    }
}

/// Bhaskara's composition: from a triple (a, b, k) with k = a^2 - n*b^2 != 0
/// and a multiplier m for which |k| divides both a + b*m and a*m + n*b, the
/// triple ((a*m + n*b)/|k|, (a + b*m)/|k|, (m^2 - n)/k) again has its k equal
/// to a^2 - n*b^2, and the last division is exact.
pub proof fn lemma_composition(n: int, a: int, b: int, k: int, m: int)
    requires
        k != 0,
        triple_k(n, a, b) == k,
        (a + b * m) % abs(k) == 0,
        (a * m + n * b) % abs(k) == 0,
    ensures
        (m * m - n) == k * trunc_div(m * m - n, k),
        triple_k(n, (a * m + n * b) / abs(k), (a + b * m) / abs(k)) == trunc_div(m * m - n, k),
{
    let ak = abs(k);
    let x = a * m + n * b;
    let y = a + b * m;
    let xq = x / ak;
    let yq = y / ak;
    vstd::arithmetic::div_mod::lemma_fundamental_div_mod(x, ak);
    vstd::arithmetic::div_mod::lemma_fundamental_div_mod(y, ak);
    let p = a * m;
    let q = n * b;
    let u = b * m;
    assert(x * x == p * p + 2 * (p * q) + q * q) by (nonlinear_arith)
        requires
            x == p + q,
    ;
    assert(y * y == a * a + 2 * (a * u) + u * u) by (nonlinear_arith)
        requires
            y == a + u,
    ;
    assert(p * p == (a * a) * (m * m)) by (nonlinear_arith)
        requires
            p == a * m,
    ;
    assert(q * q == n * (n * (b * b))) by (nonlinear_arith)
        requires
            q == n * b,
    ;
    assert(u * u == (b * b) * (m * m)) by (nonlinear_arith)
        requires
            u == b * m,
    ;
    assert(p * q == n * (a * u)) by (nonlinear_arith)
        requires
            p == a * m,
            q == n * b,
            u == b * m,
    ;
    let aa = a * a;
    let bb = b * b;
    let mm = m * m;
    let au = a * u;
    assert(n * b * b == n * bb) by (nonlinear_arith)
        requires
            bb == b * b,
    ;
    assert(n * (aa + 2 * au + bb * mm) == n * aa + 2 * (n * au) + n * (bb * mm)) by (nonlinear_arith);
    assert(k * (mm - n) == aa * mm - n * aa - (n * bb) * mm + n * (n * bb)) by (nonlinear_arith)
        requires
            k == aa - n * bb,
    ;
    assert(n * (bb * mm) == (n * bb) * mm) by (nonlinear_arith);
    assert(n * y * y == n * (y * y)) by (nonlinear_arith);
    assert(x * x - n * y * y == k * (m * m - n));
    assert(ak * ak == k * k) by (nonlinear_arith)
        requires
            ak == abs(k),
    ;
    let t = triple_k(n, xq, yq);
    let kk = k * k;
    assert(x * x == kk * (xq * xq)) by (nonlinear_arith)
        requires
            x == ak * xq,
            ak * ak == kk,
    ;
    assert(n * y * y == kk * (n * yq * yq)) by (nonlinear_arith)
        requires
            y == ak * yq,
            ak * ak == kk,
    ;
    assert(kk * (xq * xq) - kk * (n * yq * yq) == kk * t) by (nonlinear_arith)
        requires
            t == xq * xq - n * yq * yq,
    ;
    assert(x * x - n * y * y == k * k * t);
    assert(m * m - n == k * t) by (nonlinear_arith)
        requires
            k * (m * m - n) == k * k * t,
            k != 0,
    ;
    lemma_trunc_div_exact(k, t);
}

/// Where the Chakravala iteration ends, in mathematical integers.
pub enum Outcome {
    /// k reached 1 at the triple (x, y, 1).
    Solved(int, int),
    /// A step could not be taken: k = 0, no admissible multiplier, or an
    /// inexact division.
    Stuck,
    /// The step budget ran out first.
    Capped,
}

/// The multiplier that the search picks at (a, b, k), when there is one.
pub open spec fn chosen_multiplier(n: int, a: int, b: int, k: int) -> Option<int> {
    if exists|m: int| is_best_multiplier(n, a, b, k, m) {
        Some(choose|m: int| is_best_multiplier(n, a, b, k, m))
    } else {
        None
    }
}

/// The triple that follows (a, b, k) by the composition law, or `None` where
/// no step can be taken.
pub open spec fn next_triple(n: int, a: int, b: int, k: int) -> Option<(int, int, int)> {
    if k == 0 {
        None
    } else {
        match chosen_multiplier(n, a, b, k) {
            None => None,
            Some(m) => if (a * m + n * b) % abs(k) != 0 {
                None
            } else {
                Some(((a * m + n * b) / abs(k), (a + b * m) / abs(k), trunc_div(m * m - n, k)))
            },
        }
    }
}

/// The iteration from (a, b, k) with at most `fuel` more steps.
pub open spec fn iterate(n: int, a: int, b: int, k: int, fuel: nat) -> Outcome
    decreases fuel,
{
    if k == 1 {
        Outcome::Solved(a, b)
    } else if fuel == 0 {
        Outcome::Capped
    } else {
        match next_triple(n, a, b, k) {
            None => Outcome::Stuck,
            Some(t) => iterate(n, t.0, t.1, t.2, (fuel - 1) as nat),
        }
    }
}

/// The starting a: of floor(sqrt(n)) and the next integer, the one whose
/// square is nearer n, floor(sqrt(n)) on a tie.
pub open spec fn initial_a(n: int) -> int {
    let s = floor_sqrt(n);
    if (s + 1) * (s + 1) - n < n - s * s {
        s + 1
    } else {
        s
    }
}

/// Where the iteration from the starting triple (initial_a(n), 1, initial_a(n)^2 - n) ends.
pub open spec fn chakravala_outcome(n: int) -> Outcome {
    iterate(n, initial_a(n), 1, initial_a(n) * initial_a(n) - n, MAX_ITERATIONS as nat)
}

/// Every step of the iteration keeps k = a^2 - n*b^2: where it holds of
/// (a, b, k), it holds of the triple that follows.
pub proof fn lemma_next_triple_keeps_invariant(n: int, a: int, b: int, k: int)
    requires
        triple_k(n, a, b) == k,
        next_triple(n, a, b, k) is Some,
    ensures
        triple_k(
            n,
            next_triple(n, a, b, k).unwrap().0,
            next_triple(n, a, b, k).unwrap().1,
        ) == next_triple(n, a, b, k).unwrap().2,
{
    let m = chosen_multiplier(n, a, b, k).unwrap();
    assert(is_best_multiplier(n, a, b, k, m));
    lemma_composition(n, a, b, k, m);
}

/// Started from a solution (x, y), taken as the triple (x, y, x^2 - n*y^2),
/// the iteration has k = 1 at once and hands back (x, y) unchanged.
pub proof fn lemma_solution_is_final_triple(n: int, x: int, y: int, fuel: nat)
    requires
        is_pell_solution(n, x, y),
    ensures
        triple_k(n, x, y) == 1,
        iterate(n, x, y, triple_k(n, x, y), fuel) == Outcome::Solved(x, y),
{
}

/// Solves x^2 - n*y^2 = 1 for its fundamental solution by the Chakravala
/// method. Fails with `InvalidInput` exactly when n <= 0, with
/// `PerfectSquare` exactly when n is a positive square; otherwise the result
/// is where `chakravala_outcome(n)` ends, and a returned pair is a positive
/// solution.
pub fn solve_pell(n: i64) -> (r: Result<(BigNum, BigNum), PellError>)
    ensures
        (r matches Err(PellError::InvalidInput)) == (n <= 0),
        (r matches Err(PellError::PerfectSquare)) == (n > 0 && is_perfect_square(n as int)),
        r is Ok ==> is_pell_solution(n as int, r.unwrap().0@, r.unwrap().1@),
        n > 0 && !is_perfect_square(n as int) ==> match chakravala_outcome(n as int) {
            Outcome::Solved(x, y) => r is Ok && r.unwrap().0@ == x && r.unwrap().1@ == y,
            Outcome::Stuck => r matches Err(PellError::InternalError { .. }),
            Outcome::Capped => r matches Err(PellError::NoConvergence),
        },
{
    if n <= 0 {
        return Err(PellError::InvalidInput);
    }
    let nb = big_from_u64(n as u64);
    let s = big_sqrt(&nb);
    let s2 = big_mul(&s, &s);
    proof {
        lemma_square_iff_root(n as int, s@);
        lemma_floor_sqrt_is(n as int, s@);
    }
    if matches!(big_cmp(&s2, &nb), Ordering::Equal) {
        return Err(PellError::PerfectSquare);
    }
    let one = big_from_u64(1);
    let d1 = big_sub(&nb, &s2);
    let s1 = big_add(&s, &one);
    let s1sq = big_mul(&s1, &s1);
    let d2 = big_sub(&s1sq, &nb);
    let mut a = if matches!(big_cmp(&d2, &d1), Ordering::Less) {
        s1
    } else {
        s
    };
    let mut b = one.copy();
    let asq = big_mul(&a, &a);
    let mut k = big_sub(&asq, &nb);
    assert(a@ == initial_a(n as int));
    let zero = big_from_u64(0);
    let mut steps: u64 = 0;
    while !matches!(big_cmp(&k, &one), Ordering::Equal)
        invariant
            n > 0,
            nb@ == n as int,
            one@ == 1,
            zero@ == 0,
            !is_perfect_square(n as int),
            a@ >= 0,
            b@ >= 1,
            triple_k(n as int, a@, b@) == k@,
            steps <= MAX_ITERATIONS,
            iterate(n as int, a@, b@, k@, (MAX_ITERATIONS - steps) as nat) == chakravala_outcome(
                n as int,
            ),
        decreases MAX_ITERATIONS - steps,
    {
        if steps >= MAX_ITERATIONS {
            return Err(PellError::NoConvergence);
        }
        if matches!(big_cmp(&k, &zero), Ordering::Equal) {
            return Err(PellError::InternalError { a, b, k });
        }
        let m = match find_optimal_m(&nb, &a, &b, &k) {
            Ok(m) => m,
            Err(e) => {
                assert(chosen_multiplier(n as int, a@, b@, k@) is None);
                return Err(e);
            },
        };
        proof {
            lemma_best_multiplier_unique(
                n as int,
                a@,
                b@,
                k@,
                m@,
                choose|c: int| is_best_multiplier(n as int, a@, b@, k@, c),
            );
        }
        assert(chosen_multiplier(n as int, a@, b@, k@) == Some(m@));
        let abs_k = big_abs(&k);
        let am = big_mul(&a, &m);
        let nbb = big_mul(&nb, &b);
        let x = big_add(&am, &nbb);
        let bm = big_mul(&b, &m);
        let y = big_add(&a, &bm);
        let rem = big_rem(&x, &abs_k);
        assert(a@ * m@ >= 0 && n * b@ >= 0 && b@ * m@ >= 1) by (nonlinear_arith)
            requires
                a@ >= 0,
                m@ >= 1,
                b@ >= 1,
                n > 0,
        ;
        if !matches!(big_cmp(&rem, &zero), Ordering::Equal) {
            return Err(PellError::InternalError { a, b, k });
        }
        let msq = big_mul(&m, &m);
        let top = big_sub(&msq, &nb);
        let new_a = big_div(&x, &abs_k);
        let new_b = big_div(&y, &abs_k);
        let new_k = big_div(&top, &k);
        proof {
            lemma_composition(n as int, a@, b@, k@, m@);
            vstd::arithmetic::div_mod::lemma_fundamental_div_mod(y@, abs_k@);
            assert(new_b@ >= 1) by (nonlinear_arith)
                requires
                    y@ == abs_k@ * new_b@,
                    y@ >= 1,
                    abs_k@ > 0,
            ;
        }
        a = new_a;
        b = new_b;
        k = new_k;
        steps = steps + 1;
    }
    assert(a@ >= 1) by (nonlinear_arith)
        requires
            a@ * a@ - n * b@ * b@ == 1,
            a@ >= 0,
            n > 0,
            b@ >= 1,
    ;
    Ok((a, b))
}

} // verus!
