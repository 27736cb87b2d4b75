use chakravala::bignum::BigNum;
use chakravala::error::PellError;
use chakravala::multiplier::find_optimal_m;
use chakravala::solver::solve_pell;
use num_bigint::{BigInt, Sign};

fn big(x: &BigNum) -> BigInt {
    BigInt::from_slice(if x.neg { Sign::Minus } else { Sign::Plus }, &x.mag)
}

fn num(v: u64) -> BigNum {
    BigNum::from_u64(v)
}

fn pell_value(n: i64, x: &BigNum, y: &BigNum) -> BigInt {
    let (x, y) = (big(x), big(y));
    &x * &x - BigInt::from(n) * &y * &y
}

fn is_square(n: i64) -> bool {
    let r = (n as f64).sqrt() as i64;
    (r - 1..=r + 1).any(|s| s >= 0 && s * s == n)
}

fn expect_solution(n: i64, x: &str, y: &str) {
    let (sx, sy) = solve_pell(n).expect("a solution");
    assert_eq!(big(&sx).to_string(), x);
    assert_eq!(big(&sy).to_string(), y);
    assert_eq!(pell_value(n, &sx, &sy), BigInt::from(1));
}

#[test]
fn solves_two() {
    expect_solution(2, "3", "2");
}

#[test]
fn solves_three() {
    expect_solution(3, "2", "1");
}

#[test]
fn solves_five() {
    expect_solution(5, "9", "4");
}

#[test]
fn solves_thirteen() {
    expect_solution(13, "649", "180");
}

#[test]
fn solves_sixty_one() {
    expect_solution(61, "1766319049", "226153980");
}

#[test]
fn solves_one_hundred_nine() {
    expect_solution(109, "158070671986249", "15140424455100");
}

#[test]
fn one_is_a_perfect_square() {
    assert!(matches!(solve_pell(1), Err(PellError::PerfectSquare)));
}

#[test]
fn zero_and_negatives_are_invalid() {
    for n in [0i64, -1, -2, -61, i64::MIN] {
        assert!(matches!(solve_pell(n), Err(PellError::InvalidInput)));
    }
}

#[test]
fn every_square_up_to_ten_thousand_is_rejected() {
    for s in 1i64..=100 {
        assert!(matches!(solve_pell(s * s), Err(PellError::PerfectSquare)));
    }
}

#[test]
fn every_result_solves_the_equation() {
    for n in 2i64..=400 {
        if is_square(n) {
            continue;
        }
        let (x, y) = solve_pell(n).expect("a solution");
        assert_eq!(pell_value(n, &x, &y), BigInt::from(1), "n = {}", n);
    }
}

#[test]
fn large_inputs_solve_the_equation() {
    for n in [991i64, 1000, 4729, 9949, 9999] {
        let (x, y) = solve_pell(n).expect("a solution");
        assert_eq!(pell_value(n, &x, &y), BigInt::from(1), "n = {}", n);
    }
}

#[test]
fn results_are_fundamental_for_small_n() {
    for n in 2i64..=200 {
        if is_square(n) {
            continue;
        }
        let (_, y) = solve_pell(n).expect("a solution");
        let y = big(&y);
        if y > BigInt::from(20000) {
            continue;
        }
        let mut y2 = BigInt::from(1);
        while y2 < y {
            let v: BigInt = BigInt::from(n) * &y2 * &y2 + BigInt::from(1);
            let r = v.sqrt();
            assert_ne!(&r * &r, v, "n = {}, smaller y = {}", n, y2);
            y2 += 1;
        }
    }
}

#[test]
fn solution_as_triple_has_unit_k() {
    let (x, y) = solve_pell(13).expect("a solution");
    let (bx, by) = (big(&x), big(&y));
    let k = &bx * &bx - BigInt::from(13) * &by * &by;
    assert_eq!(k, BigInt::from(1));
}

#[test]
fn multiplier_for_sixty_one_start() {
    // Starting triple of N = 61: (8, 1, 3); 3 divides 8 + m for m = 7, 10, 4, ...
    let m = find_optimal_m(&num(61), &num(8), &num(1), &num(3)).expect("a multiplier");
    assert_eq!(m.to_u64(), Some(7));
}

#[test]
fn multiplier_with_negative_k() {
    // N = 13, triple (4, 1, 3) gives m = 2 (4 + 2 = 6), |4 - 13| = 9 beats 5 (|25 - 13| = 12).
    let m = find_optimal_m(&num(13), &num(4), &num(1), &num(3)).expect("a multiplier");
    assert_eq!(m.to_u64(), Some(2));
    let neg = BigNum { neg: true, mag: vec![3] };
    let m = find_optimal_m(&num(13), &num(4), &num(1), &neg).expect("a multiplier");
    assert_eq!(m.to_u64(), Some(2));
}

#[test]
fn multiplier_tie_takes_smaller() {
    // N = 5, a = 1, b = 1, k = 2: odd m only; 1 and 3 both give |m^2 - 5| = 4.
    let m = find_optimal_m(&num(5), &num(1), &num(1), &num(2)).expect("a multiplier");
    assert_eq!(m.to_u64(), Some(1));
}

#[test]
fn multiplier_missing_is_internal_error() {
    // 1 + 2m is never even.
    let r = find_optimal_m(&num(5), &num(1), &num(2), &num(2));
    assert!(matches!(r, Err(PellError::InternalError { .. })));
}

#[test]
fn bignum_round_trip() {
    assert_eq!(num(0).to_u64(), Some(0));
    assert_eq!(num(u64::MAX).to_u64(), Some(u64::MAX));
    assert_eq!(num(1 << 40).mag, vec![0, 256]);
    assert_eq!(BigNum { neg: true, mag: vec![5] }.to_u64(), None);
    assert_eq!(BigNum { neg: false, mag: vec![0, 0, 1] }.to_u64(), None);
    assert_eq!(num(12345).copy().to_u64(), Some(12345));
}
