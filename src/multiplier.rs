//! The multiplier search of one Chakravala step.
use crate::bignum::{
    abs, big_abs, big_add, big_cmp, big_from_u64, big_mul, big_rem, big_sqrt, big_sub,
    big_to_u64, is_floor_sqrt, trunc_rem, BigNum,
};
use crate::error::PellError;
use core::cmp::Ordering;
use vstd::prelude::*;

verus! {

/// Largest offset bound taken from |k|: the search never looks further than
/// this plus one from the target.
pub const SEARCH_CAP: u64 = 1048576;

/// The floor of the square root of a non-negative `n`.
pub open spec fn floor_sqrt(n: int) -> int {
    choose|s: int| is_floor_sqrt(n, s)
}

/// How far from the target the search for a multiplier looks, for |k| = `abs_k`.
pub open spec fn search_radius(abs_k: int) -> int {
    if abs_k <= SEARCH_CAP {
        abs_k + 1
    } else {
        SEARCH_CAP + 1
    }
}

/// `c` is a positive multiplier with |k| dividing a + b*c.
pub open spec fn fits(a: int, b: int, k: int, c: int) -> bool {
    c >= 1 && (a + b * c) % abs(k) == 0
}

/// `c` fits and lies within the search radius of floor(sqrt(n)).
pub open spec fn admissible(n: int, a: int, b: int, k: int, c: int) -> bool {
    fits(a, b, k, c) && abs(c - floor_sqrt(n)) <= search_radius(abs(k))
}

/// What the multiplier search minimizes: |c^2 - n|.
pub open spec fn objective(n: int, c: int) -> int {
    abs(c * c - n)
}

/// `c1` is at least as good as `c2`: a smaller objective, the smaller value on a tie.
pub open spec fn prefers(n: int, c1: int, c2: int) -> bool {
    objective(n, c1) < objective(n, c2) || (objective(n, c1) == objective(n, c2) && c1 <= c2)
}

/// `m` is the admissible multiplier that every admissible one gives way to.
pub open spec fn is_best_multiplier(n: int, a: int, b: int, k: int, m: int) -> bool {
    admissible(n, a, b, k, m) && forall|c: int| #[trigger]
        admissible(n, a, b, k, c) ==> prefers(n, m, c)
}

/// The floor of a square root is unique.
pub proof fn lemma_floor_sqrt_unique(n: int, s1: int, s2: int)
    requires
        is_floor_sqrt(n, s1),
        is_floor_sqrt(n, s2),
    ensures
        s1 == s2,
{
    if s1 < s2 {
        assert((s1 + 1) * (s1 + 1) <= s2 * s2) by (nonlinear_arith)
            requires
                0 <= s1 + 1 <= s2,
        ;
    } else if s2 < s1 {
        assert((s2 + 1) * (s2 + 1) <= s1 * s1) by (nonlinear_arith)
            requires
                0 <= s2 + 1 <= s1,
        ;
    }
}

/// A computed floor square root is the one `floor_sqrt` names.
pub proof fn lemma_floor_sqrt_is(n: int, s: int)
    requires
        is_floor_sqrt(n, s),
    ensures
        floor_sqrt(n) == s,
{
    lemma_floor_sqrt_unique(n, s, floor_sqrt(n));
}

/// The best multiplier is unique.
pub proof fn lemma_best_multiplier_unique(n: int, a: int, b: int, k: int, m1: int, m2: int)
    requires
        is_best_multiplier(n, a, b, k, m1),
        is_best_multiplier(n, a, b, k, m2),
    ensures
        m1 == m2,
{
    assert(prefers(n, m1, m2));
    assert(prefers(n, m2, m1));
}

/// Past the offset where both t - offset and t + offset are strictly worse
/// than `d`, every candidate is strictly worse: |c^2 - n| only grows as c
/// moves away from t = floor(sqrt(n)).
proof fn lemma_far_is_worse(n: int, t: int, offset: int, d: int, c: int)
    requires
        is_floor_sqrt(n, t),
        offset >= 1,
        d >= 0,
        (t + offset) * (t + offset) - n > d,
        t - offset < 1 || n - (t - offset) * (t - offset) > d,
        c >= 1,
        abs(c - t) >= offset,
    ensures
        objective(n, c) > d,
{
    if c >= t + offset {
        assert((t + offset) * (t + offset) <= c * c) by (nonlinear_arith)
            requires
                0 <= t + offset <= c,
        ;
    } else {
        assert(c * c <= (t - offset) * (t - offset)) by (nonlinear_arith)
            requires
                1 <= c <= t - offset,
        ;
    }
}

/// Weighs candidate `c` against the best one so far, `best` = (multiplier, objective).
fn consider(
    n: &BigNum,
    a: &BigNum,
    b: &BigNum,
    k: &BigNum,
    abs_k: &BigNum,
    c: BigNum,
    best: &mut Option<(BigNum, BigNum)>,
)
    requires
        a@ >= 0,
        b@ >= 0,
        abs_k@ == abs(k@),
        abs_k@ > 0,
        old(best).is_some() ==> fits(a@, b@, k@, old(best).unwrap().0@) && old(best).unwrap().1@
            == objective(n@, old(best).unwrap().0@),
    ensures
        final(best).is_some() ==> fits(a@, b@, k@, final(best).unwrap().0@) && final(best).unwrap().1@
            == objective(n@, final(best).unwrap().0@),
        final(best).is_some() ==> final(best).unwrap().0@ == c@ || (old(best).is_some()
            && final(best).unwrap().0@ == old(best).unwrap().0@),
        fits(a@, b@, k@, c@) ==> final(best).is_some() && prefers(n@, final(best).unwrap().0@, c@),
        old(best).is_some() ==> final(best).is_some() && prefers(
            n@,
            final(best).unwrap().0@,
            old(best).unwrap().0@,
        ),
        old(best).is_none() && !fits(a@, b@, k@, c@) ==> final(best).is_none(),
{
    let one = big_from_u64(1);
    if matches!(big_cmp(&c, &one), Ordering::Less) {
        return;
    }
    let bc = big_mul(b, &c);
    let sum = big_add(a, &bc);
    assert(b@ * c@ >= 0) by (nonlinear_arith)
        requires
            b@ >= 0,
            c@ >= 1,
    ;
    let rem = big_rem(&sum, abs_k);
    let zero = big_from_u64(0);
    if !matches!(big_cmp(&rem, &zero), Ordering::Equal) {
        return;
    }
    assert(fits(a@, b@, k@, c@));
    let sq = big_mul(&c, &c);
    let delta = big_sub(&sq, n);
    let diff = big_abs(&delta);
    let better = match best {
        None => true,
        Some((m, d)) => {
            let o = big_cmp(&diff, d);
            matches!(o, Ordering::Less) || (matches!(o, Ordering::Equal) && matches!(
                big_cmp(&c, m),
                Ordering::Less
            ))
        },
    };
    if better {
        *best = Some((c, diff));
    }
}

/// The multiplier m of a Chakravala step from (a, b, k): among the positive
/// m within `search_radius(|k|)` of floor(sqrt(n)) with |k| dividing a + b*m,
/// the one with the smallest |m^2 - n|, the smaller one on a tie. Fails with
/// `InternalError` exactly when there is none. Candidates are tried outward
/// from floor(sqrt(n)), and the search stops early once no candidate further
/// out can do as well as the best one found.
pub fn find_optimal_m(n: &BigNum, a: &BigNum, b: &BigNum, k: &BigNum) -> (r: Result<
    BigNum,
    PellError,
>)
    requires
        n@ >= 0,
        a@ >= 0,
        b@ >= 0,
        k@ != 0,
    ensures
        r is Ok ==> is_best_multiplier(n@, a@, b@, k@, r.unwrap()@),
        r is Err ==> r->Err_0 is InternalError && forall|c: int|
            !#[trigger] admissible(n@, a@, b@, k@, c),
{
    let abs_k = big_abs(k);
    let target = big_sqrt(n);
    proof {
        lemma_floor_sqrt_is(n@, target@);
    }
    let radius: u64 = match big_to_u64(&abs_k) {
        Some(v) => if v > SEARCH_CAP {
            SEARCH_CAP + 1
        } else {
            v + 1
        },
        None => SEARCH_CAP + 1,
    };
    assert(radius == search_radius(abs(k@)));
    let one = big_from_u64(1);
    let mut best: Option<(BigNum, BigNum)> = None;
    let mut offset: u64 = 0;
    while offset <= radius
        invariant
            a@ >= 0,
            b@ >= 0,
            k@ != 0,
            abs_k@ == abs(k@),
            target@ == floor_sqrt(n@),
            is_floor_sqrt(n@, target@),
            radius == search_radius(abs(k@)),
            radius <= SEARCH_CAP + 1,
            offset <= radius + 1,
            one@ == 1,
            best is Some ==> fits(a@, b@, k@, best.unwrap().0@) && best.unwrap().1@ == objective(
                n@,
                best.unwrap().0@,
            ) && abs(best.unwrap().0@ - target@) < offset,
            forall|c: int|
                #[trigger] fits(a@, b@, k@, c) && abs(c - target@) < offset ==> best is Some
                    && prefers(n@, best.unwrap().0@, c),
        ensures
            best is Some ==> is_best_multiplier(n@, a@, b@, k@, best.unwrap().0@),
            best is None ==> forall|c: int| !#[trigger] admissible(n@, a@, b@, k@, c),
        decreases radius + 1 - offset,
    {
        let o = big_from_u64(offset);
        let lo = big_sub(&target, &o);
        let hi = big_add(&target, &o);
        if offset > 0 {
            if let Some((m, d)) = &best {
                // Stop once every candidate from this offset on is strictly worse.
                let hi_sq = big_mul(&hi, &hi);
                let hi_gap = big_sub(&hi_sq, n);
                let lo_sq = big_mul(&lo, &lo);
                let lo_gap = big_sub(n, &lo_sq);
                let lo_worse = matches!(big_cmp(&lo, &one), Ordering::Less) || matches!(
                    big_cmp(&lo_gap, d),
                    Ordering::Greater
                );
                if lo_worse && matches!(big_cmp(&hi_gap, d), Ordering::Greater) {
                    proof {
                        assert forall|c: int| #[trigger]
                            admissible(n@, a@, b@, k@, c) implies prefers(n@, m@, c) by {
                            if abs(c - target@) >= offset {
                                lemma_far_is_worse(n@, target@, offset as int, d@, c);
                            }
                        }
                    }
                    break;
                }
            }
        }
        consider(n, a, b, k, &abs_k, lo, &mut best);
        if offset > 0 {
            consider(n, a, b, k, &abs_k, hi, &mut best);
        }
        offset = offset + 1;
    }
    match best {
        Some((m, _)) => Ok(m),
        None => Err(PellError::InternalError { a: a.copy(), b: b.copy(), k: k.copy() }),
    }
}

} // verus!
