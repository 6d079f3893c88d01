use mathgen::problem::{generate, Op, Problem, Rng};

fn problems(ops: &[Op], simple: bool, seed: u64) -> Vec<Problem> {
    let mut rng = Rng::new(seed);
    generate(40, ops, 10, 99, simple, &mut rng).expect("generates")
}

#[test]
fn answers_are_correct() {
    for seed in 0..200 {
        for p in problems(&[Op::Add, Op::Sub, Op::Mul], false, seed) {
            let expected = match p.op {
                Op::Add => p.a + p.b,
                Op::Sub => p.a - p.b,
                Op::Mul => p.a * p.b,
            };
            assert_eq!(p.answer(), expected);
        }
    }
}

#[test]
fn subtraction_is_never_negative_or_zero() {
    for seed in 0..200 {
        for p in problems(&[Op::Sub], false, seed) {
            assert!(p.answer() > 0, "{} - {}", p.a, p.b);
        }
    }
}

#[test]
fn simple_never_carries_or_borrows() {
    for seed in 0..200 {
        for p in problems(&[Op::Add, Op::Sub], true, seed) {
            match p.op {
                Op::Add => {
                    assert!(p.a % 10 + p.b % 10 <= 9, "carry in {} + {}", p.a, p.b);
                    assert!(p.answer() <= 99, "3 digits in {} + {}", p.a, p.b);
                }
                Op::Sub => assert!(p.a % 10 >= p.b % 10, "borrow in {} - {}", p.a, p.b),
                Op::Mul => {}
            }
        }
    }
}

#[test]
fn operands_stay_in_range() {
    for seed in 0..100 {
        let mut rng = Rng::new(seed);
        for p in generate(50, &[Op::Add, Op::Sub], 20, 40, false, &mut rng).unwrap() {
            assert!((20..=40).contains(&p.a) && (20..=40).contains(&p.b));
        }
    }
}

#[test]
fn problems_are_unique_when_the_range_allows() {
    let mut rng = Rng::new(7);
    let ps = generate(30, &[Op::Add], 10, 99, false, &mut rng).unwrap();
    let unique: std::collections::HashSet<_> = ps.iter().collect();
    assert_eq!(unique.len(), ps.len());
}

#[test]
fn seeds_are_reproducible() {
    let a = problems(&[Op::Add], false, 42);
    let b = problems(&[Op::Add], false, 42);
    assert!(a.iter().zip(&b).all(|(x, y)| x.a == y.a && x.b == y.b));
}

#[test]
fn impossible_constraints_report_an_error() {
    let mut rng = Rng::new(1);
    assert!(generate(5, &[Op::Add], 90, 99, true, &mut rng).is_err());
}

#[test]
fn impossible_constraints_name_the_operation_and_range() {
    let mut rng = Rng::new(1);
    let err = generate(5, &[Op::Add], 90, 99, true, &mut rng).unwrap_err();
    assert_eq!(
        err,
        "no addition problem fits the range 90-99 with --simple \u{2014} try widening --min/--max"
    );
    let mut rng = Rng::new(3);
    let err = generate(2, &[Op::Sub], 5, 5, false, &mut rng).unwrap_err();
    assert_eq!(err, "no subtraction problem fits the range 5-5 \u{2014} try widening --min/--max");
}

#[test]
fn operations_cycle_in_order() {
    let mut rng = Rng::new(11);
    let ps = generate(7, &[Op::Mul, Op::Add, Op::Sub], 2, 12, false, &mut rng).unwrap();
    let ops: Vec<Op> = ps.iter().map(|p| p.op).collect();
    assert_eq!(ops, vec![Op::Mul, Op::Add, Op::Sub, Op::Mul, Op::Add, Op::Sub, Op::Mul]);
}

#[test]
fn zero_count_gives_an_empty_sheet() {
    let mut rng = Rng::new(5);
    assert_eq!(generate(0, &[], 10, 99, false, &mut rng).unwrap(), vec![]);
}

#[test]
fn a_tiny_range_repeats_once_fresh_problems_run_out() {
    // Only 2 + 2 and the three sums on 2..=3 exist; the sheet still fills.
    let mut rng = Rng::new(9);
    let ps = generate(6, &[Op::Add], 2, 3, false, &mut rng).unwrap();
    assert_eq!(ps.len(), 6);
    let unique: std::collections::HashSet<_> = ps.iter().collect();
    assert_eq!(unique.len(), 4);
}

#[test]
fn splitmix_matches_its_reference_outputs() {
    // SplitMix64 from seed 0 yields 0xE220A8397B1DCDAF first; mod 100 gives 75.
    let mut rng = Rng::new(0);
    assert_eq!(rng.range(0, 99), (0xE220_A839_7B1D_CDAFu64 % 100) as i64);
    let mut rng = Rng::new(0);
    assert_eq!(rng.range(i64::MIN / 2, i64::MIN / 2), i64::MIN / 2);
}

#[test]
fn range_stays_within_bounds() {
    let mut rng = Rng::new(123);
    for _ in 0..1000 {
        let v = rng.range(-5, 5);
        assert!((-5..=5).contains(&v));
    }
}

#[test]
fn op_symbols_and_names() {
    assert_eq!(Op::Add.symbol(), "+");
    assert_eq!(Op::Sub.symbol(), "\u{2013}");
    assert_eq!(Op::Mul.symbol(), "\u{00D7}");
    assert_eq!(Op::Add.name(), "addition");
    assert_eq!(Op::Sub.name(), "subtraction");
    assert_eq!(Op::Mul.name(), "multiplication");
}

#[test]
fn op_parse_accepts_every_spelling() {
    for s in ["add", "addition", "+", "  ADD ", "Addition\t"] {
        assert_eq!(Op::parse(s), Some(Op::Add), "{s:?}");
    }
    for s in ["sub", "subtract", "subtraction", "-", " Sub"] {
        assert_eq!(Op::parse(s), Some(Op::Sub), "{s:?}");
    }
    for s in ["mul", "multiply", "multiplication", "x", "*", "X", "MUL\u{3000}"] {
        assert_eq!(Op::parse(s), Some(Op::Mul), "{s:?}");
    }
    for s in ["divide", "", "  ", "ad d", "\u{00D7}"] {
        assert_eq!(Op::parse(s), None, "{s:?}");
    }
}

#[test]
fn answers_and_inline_form() {
    let p = Problem { a: 51, b: 29, op: Op::Add };
    assert_eq!(p.answer(), 80);
    assert_eq!(p.inline(), "51 + 29 = 80");
    let p = Problem { a: 79, b: 26, op: Op::Sub };
    assert_eq!(p.answer(), 53);
    assert_eq!(p.inline(), "79 \u{2013} 26 = 53");
    let p = Problem { a: 12, b: -3, op: Op::Mul };
    assert_eq!(p.answer(), -36);
    assert_eq!(p.inline(), "12 \u{00D7} -3 = -36");
    let p = Problem { a: i64::MIN, b: 0, op: Op::Add };
    assert_eq!(p.inline(), "-9223372036854775808 + 0 = -9223372036854775808");
}

fn digits_of(mut n: i64) -> Vec<i64> {
    let mut out = Vec::new();
    while n != 0 {
        out.push((n % 10).abs());
        n /= 10;
    }
    out
}

fn digit_at(n: i64, k: usize) -> i64 {
    digits_of(n).get(k).copied().unwrap_or(0)
}

#[test]
fn simple_subtraction_never_borrows_in_any_column() {
    // 103 - 92 would borrow in the tens; it may not appear.
    for seed in 0..300 {
        let mut rng = Rng::new(seed);
        for p in generate(3, &[Op::Sub], 92, 105, true, &mut rng).unwrap() {
            for k in 0..4 {
                assert!(digit_at(p.a, k) >= digit_at(p.b, k), "borrow in {} - {}", p.a, p.b);
            }
        }
    }
    let mut rng = Rng::new(49);
    let ps = generate(1, &[Op::Sub], 92, 105, true, &mut rng).unwrap();
    assert!(!(ps[0].a == 103 && ps[0].b == 92));
}

#[test]
fn simple_addition_never_carries_in_any_column() {
    for seed in 0..200 {
        let mut rng = Rng::new(seed);
        for p in generate(5, &[Op::Add], 0, 60, true, &mut rng).unwrap() {
            for k in 0..4 {
                assert!(digit_at(p.a, k) + digit_at(p.b, k) <= 9, "carry in {} + {}", p.a, p.b);
            }
            assert!(p.answer() <= 99);
        }
    }
}

#[test]
fn every_problem_of_a_small_range_is_used_before_any_repeats() {
    // Additions on 0..=9 make exactly 100 distinct problems.
    let mut rng = Rng::new(10);
    let ps = generate(100, &[Op::Add], 0, 9, false, &mut rng).unwrap();
    let unique: std::collections::HashSet<_> = ps.iter().collect();
    assert_eq!(unique.len(), 100);
    for seed in 0..20 {
        let mut rng = Rng::new(seed);
        // 15 of each; subtraction on 0..=5 has exactly 15 problems.
        let ps = generate(30, &[Op::Mul, Op::Sub], 0, 5, false, &mut rng).unwrap();
        let unique: std::collections::HashSet<_> = ps.iter().collect();
        assert_eq!(unique.len(), 30, "seed {seed}");
    }
}

#[test]
fn multiplication_takes_the_first_pair_drawn() {
    let mut a = Rng::new(77);
    let mut b = Rng::new(77);
    let ps = generate(1, &[Op::Mul], 3, 40, false, &mut a).unwrap();
    let x = b.range(3, 40);
    let y = b.range(3, 40);
    assert_eq!(ps[0], Problem { a: x, b: y, op: Op::Mul });
    assert_eq!(a.range(0, 1_000_000), b.range(0, 1_000_000));
}

#[test]
fn a_slot_without_any_problem_fails_the_whole_sheet() {
    let mut rng = Rng::new(4);
    let err = generate(4, &[Op::Add, Op::Sub], 7, 7, false, &mut rng).unwrap_err();
    assert_eq!(err, "no subtraction problem fits the range 7-7 \u{2014} try widening --min/--max");
}

#[test]
fn equal_seeds_give_equal_draws_and_different_seeds_differ() {
    let mut a = Rng::new(5);
    let mut b = Rng::new(5);
    for _ in 0..50 {
        assert_eq!(a.range(-1000, 1000), b.range(-1000, 1000));
    }
    let mut c = Rng::new(6);
    let mut d = Rng::new(5);
    assert_ne!(c.range(0, i64::MAX - 1), d.range(0, i64::MAX - 1));
}

#[test]
fn after_k_draws_the_generator_is_seeded_k_steps_on() {
    let gamma: u64 = 0x9E37_79B9_7F4A_7C15;
    let seed: u64 = u64::MAX - 3;
    let mut rng = Rng::new(seed);
    for k in 0..20u64 {
        let mut fresh = Rng::new(seed.wrapping_add(k.wrapping_mul(gamma)));
        assert_eq!(fresh.range(0, 1_000_000_007), rng.range(0, 1_000_000_007), "k = {k}");
    }
}
