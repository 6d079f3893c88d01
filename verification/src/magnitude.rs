//! Exact decimal magnitudes: which numbers written in decimal round to a
//! finite `f32` above zero, decided on their digits.

use vstd::arithmetic::power::pow;
use vstd::prelude::*;

use crate::args::digits_value;
use crate::text::{all_digits, decimal, digit, digit_char, push_decimal};

verus! {

/// `n` zeros.
pub open spec fn zeros(n: nat) -> Seq<char> {
    Seq::new(n, |_i: int| '0')
}

/// A run of digits that starts with a nonzero one.
pub open spec fn significant(d: Seq<char>) -> bool {
    d.len() > 0 && all_digits(d) && d[0] != '0'
}

/// The value of the digits `d` followed by `k` zeros.
pub open spec fn scaled(d: Seq<char>, k: nat) -> int {
    digits_value(d) * pow(10, k)
}

proof fn lemma_pow_step(b: int, e: nat)
    ensures
        pow(b, e + 1) == b * pow(b, e),
{
    reveal(pow);
}

proof fn lemma_value_append(a: Seq<char>, b: Seq<char>)
    ensures
        digits_value(a + b) == digits_value(a) * pow(10, b.len()) + digits_value(b),
    decreases b.len(),
{
    if b.len() == 0 {
        assert(a + b == a);
        reveal(pow);
    } else {
        let b0 = b.drop_last();
        assert((a + b).drop_last() == a + b0);
        assert((a + b).last() == b.last());
        lemma_value_append(a, b0);
        lemma_pow_step(10, b0.len());
        let p = pow(10, b0.len());
        let va = digits_value(a) as int;
        let vb = digits_value(b0) as int;
        let d = ((b.last() as int) - 48) as nat as int;
        assert((va * p + vb) * 10 + d == va * (10 * p) + (vb * 10 + d)) by (nonlinear_arith);
    }
}

proof fn lemma_value_below(a: Seq<char>)
    requires
        all_digits(a),
    ensures
        digits_value(a) < pow(10, a.len()),
    decreases a.len(),
{
    if a.len() == 0 {
        reveal(pow);
    } else {
        let a0 = a.drop_last();
        assert(all_digits(a0)) by {
            assert forall|i: int| 0 <= i < a0.len() implies '0' <= #[trigger] a0[i] <= '9' by {
                assert(a0[i] == a[i]);
            }
        }
        lemma_value_below(a0);
        lemma_pow_step(10, a0.len());
        assert('0' <= a[a.len() - 1] <= '9');
        let p = pow(10, a0.len());
        let v = digits_value(a0) as int;
        assert(v * 10 + 9 < 10 * p) by (nonlinear_arith)
            requires
                v < p,
        ;
    }
}

proof fn lemma_value_one(c: char)
    requires
        '0' <= c <= '9',
    ensures
        digits_value(seq![c]) == (c as int) - 48,
{
    assert(seq![c].drop_last() =~= Seq::<char>::empty());
    assert(seq![c].last() == c);
    assert(digits_value(Seq::<char>::empty()) == 0);
}

proof fn lemma_value_above(a: Seq<char>)
    requires
        significant(a),
    ensures
        digits_value(a) >= pow(10, (a.len() - 1) as nat),
{
    let rest = a.drop_first();
    assert(a == seq![a[0]] + rest);
    lemma_value_append(seq![a[0]], rest);
    lemma_value_one(a[0]);
    vstd::arithmetic::power::lemma_pow_positive(10, rest.len());
    let p = pow(10, rest.len());
    let d = (a[0] as int) - 48;
    assert(d * p >= p) by (nonlinear_arith)
        requires
            d >= 1,
            p > 0,
    ;
}

proof fn lemma_value_zeros(n: nat)
    ensures
        digits_value(zeros(n)) == 0,
        all_digits(zeros(n)),
    decreases n,
{
    if n > 0 {
        assert(zeros(n).drop_last() == zeros((n - 1) as nat));
        lemma_value_zeros((n - 1) as nat);
    }
}

/// The digits with `k` zeros after them stand for `scaled(d, k)`.
proof fn lemma_scaled_digits(d: Seq<char>, k: nat)
    requires
        all_digits(d),
    ensures
        digits_value(d + zeros(k)) == scaled(d, k),
        all_digits(d + zeros(k)),
{
    lemma_value_append(d, zeros(k));
    lemma_value_zeros(k);
    let z = d + zeros(k);
    assert forall|i: int| 0 <= i < z.len() implies '0' <= #[trigger] z[i] <= '9' by {
        if i < d.len() {
            assert(z[i] == d[i]);
        } else {
            assert(z[i] == '0');
        }
    }
}

/// Of two runs of digits of one length, the one with the smaller digit at
/// the first place where they differ is the smaller number.
proof fn lemma_value_first_difference(p: Seq<char>, q: Seq<char>, i: int)
    requires
        all_digits(p),
        all_digits(q),
        p.len() == q.len(),
        0 <= i < p.len(),
        p.take(i) == q.take(i),
        p[i] < q[i],
    ensures
        digits_value(p) < digits_value(q),
{
    let n = p.len();
    let tail_p = p.skip(i + 1);
    let tail_q = q.skip(i + 1);
    assert(p == p.take(i) + seq![p[i]] + tail_p);
    assert(q == q.take(i) + seq![q[i]] + tail_q);
    lemma_value_append(p.take(i) + seq![p[i]], tail_p);
    lemma_value_append(q.take(i) + seq![q[i]], tail_q);
    lemma_value_append(p.take(i), seq![p[i]]);
    lemma_value_append(q.take(i), seq![q[i]]);
    lemma_value_one(p[i]);
    lemma_value_one(q[i]);
    assert(all_digits(tail_p)) by {
        assert forall|j: int| 0 <= j < tail_p.len() implies '0' <= #[trigger] tail_p[j] <= '9' by {
            assert(tail_p[j] == p[i + 1 + j]);
        }
    }
    lemma_value_below(tail_p);
    reveal_with_fuel(pow, 2);
    let t = digits_value(p.take(i)) as int;
    let dp = (p[i] as int) - 48;
    let dq = (q[i] as int) - 48;
    let r = pow(10, tail_p.len());
    let vp = digits_value(tail_p) as int;
    let vq = digits_value(tail_q) as int;
    assert(digits_value(p.take(i) + seq![p[i]]) == t * 10 + dp);
    assert(digits_value(q.take(i) + seq![q[i]]) == t * 10 + dq);
    assert(tail_q.len() == tail_p.len());
    assert(digits_value(p) == (t * 10 + dp) * r + vp);
    assert(digits_value(q) == (t * 10 + dq) * r + vq);
    assert((t * 10 + dp) * r + vp < (t * 10 + dq) * r + vq) by (nonlinear_arith)
        requires
            dp < dq,
            0 <= vp < r,
            0 <= vq,
    ;
}

/// Of two runs of digits that each start with a nonzero digit, the longer
/// stands for the larger number.
proof fn lemma_longer_is_larger(p: Seq<char>, q: Seq<char>)
    requires
        significant(p),
        all_digits(q),
        q.len() < p.len(),
    ensures
        digits_value(q) < digits_value(p),
{
    lemma_value_below(q);
    lemma_value_above(p);
    vstd::arithmetic::power::lemma_pow_increases(10, q.len(), (p.len() - 1) as nat);
}

/// Compares `scaled(a, ka)` with `scaled(b, kb)`: below zero, zero or above
/// zero as the first is smaller, equal or larger.
pub fn compare_scaled(a: &Vec<char>, ka: u128, b: &Vec<char>, kb: u128) -> (r: i8)
    requires
        significant(a@),
        significant(b@),
        ka < 0x1_0000_0000_0000_0000_0000_0000,
        kb < 0x1_0000_0000_0000_0000_0000_0000,
    ensures
        (r < 0) == (scaled(a@, ka as nat) < scaled(b@, kb as nat)),
        (r == 0) == (scaled(a@, ka as nat) == scaled(b@, kb as nat)),
        (r > 0) == (scaled(a@, ka as nat) > scaled(b@, kb as nat)),
{
    let ghost p = a@ + zeros(ka as nat);
    let ghost q = b@ + zeros(kb as nat);
    proof {
        lemma_scaled_digits(a@, ka as nat);
        lemma_scaled_digits(b@, kb as nat);
        assert(p[0] == a@[0]);
        assert(q[0] == b@[0]);
    }
    let ta = a.len() as u128 + ka;
    let tb = b.len() as u128 + kb;
    if ta < tb {
        proof {
            lemma_longer_is_larger(q, p);
        }
        return -1;
    }
    if ta > tb {
        proof {
            lemma_longer_is_larger(p, q);
        }
        return 1;
    }
    let m = if a.len() < b.len() {
        b.len()
    } else {
        a.len()
    };
    let mut i: usize = 0;
    while i < m
        invariant
            p == a@ + zeros(ka as nat),
            q == b@ + zeros(kb as nat),
            all_digits(p),
            all_digits(q),
            digits_value(p) == scaled(a@, ka as nat),
            digits_value(q) == scaled(b@, kb as nat),
            p.len() == q.len(),
            m <= p.len(),
            m == a@.len() || m == b@.len(),
            a@.len() <= m && b@.len() <= m,
            i <= m,
            p.take(i as int) == q.take(i as int),
        decreases m - i,
    {
        let x = if i < a.len() {
            a[i]
        } else {
            '0'
        };
        let y = if i < b.len() {
            b[i]
        } else {
            '0'
        };
        assert(p[i as int] == x);
        assert(q[i as int] == y);
        if x < y {
            proof {
                lemma_value_first_difference(p, q, i as int);
            }
            return -1;
        }
        if x > y {
            proof {
                lemma_value_first_difference(q, p, i as int);
            }
            return 1;
        }
        assert(p.take(i + 1) == p.take(i as int).push(x));
        assert(q.take(i + 1) == q.take(i as int).push(y));
        i = i + 1;
    }
    assert(p =~= q) by {
        assert forall|j: int| 0 <= j < p.len() implies p[j] == q[j] by {
            if j < m {
                assert(p.take(m as int)[j] == q.take(m as int)[j]);
            } else {
                assert(p[j] == '0');
                assert(q[j] == '0');
            }
        }
    }
    0
}

proof fn lemma_digit_char_value(n: nat)
    requires
        n < 10,
    ensures
        '0' <= digit_char(n) <= '9',
        (digit_char(n) as int) - 48 == n,
{
}

/// The digits of `d` times `m`, one digit longer.
fn times_small(d: &Vec<char>, m: u32) -> (r: Vec<char>)
    requires
        all_digits(d@),
        m <= 10,
    ensures
        all_digits(r@),
        digits_value(r@) == digits_value(d@) * m,
{
    let n = d.len();
    let mut r: Vec<char> = Vec::new();
    let mut carry: u32 = 0;
    let mut i: usize = n;
    proof {
        assert(d@.skip(n as int) =~= Seq::<char>::empty());
        assert(r@ =~= Seq::<char>::empty());
        assert(digits_value(Seq::<char>::empty()) == 0);
        reveal(pow);
    }
    while i > 0
        invariant
            all_digits(d@),
            n == d@.len(),
            m <= 10,
            i <= n,
            all_digits(r@),
            r@.len() == n - i,
            carry <= 9,
            digits_value(r@) + carry * pow(10, r@.len()) == digits_value(d@.skip(i as int)) * m,
        decreases i,
    {
        let j = i - 1;
        let c = d[j];
        assert('0' <= d@[j as int] <= '9');
        let dig: u32 = c as u32 - 48;
        assert(dig <= 9);
        assert(dig * m <= 90) by (nonlinear_arith)
            requires
                dig <= 9,
                m <= 10,
        ;
        let t: u32 = dig * m + carry;
        let ghost old_r = r@;
        let ghost old_carry = carry;
        r.insert(0, digit((t % 10) as u64));
        carry = t / 10;
        i = j;
        proof {
            let nd = digit_char((t % 10) as nat);
            lemma_digit_char_value((t % 10) as nat);
            assert(r@ == seq![nd] + old_r);
            lemma_value_append(seq![nd], old_r);
            lemma_value_one(nd);
            assert(d@.skip(j as int) == seq![c] + d@.skip(j + 1));
            lemma_value_append(seq![c], d@.skip(j + 1));
            lemma_value_one(c);
            assert(d@.skip(j + 1).len() == old_r.len());
            lemma_pow_step(10, old_r.len());
            assert forall|k: int| 0 <= k < r@.len() implies '0' <= #[trigger] r@[k] <= '9' by {
                if k > 0 {
                    assert(r@[k] == old_r[k - 1]);
                }
            }
            let pp = pow(10, old_r.len());
            let vr = digits_value(old_r) as int;
            let vd = digits_value(d@.skip(j + 1)) as int;
            assert((t % 10) * pp + vr + (t / 10) * (10 * pp) == (dig * m) * pp + vd * m)
                by (nonlinear_arith)
                requires
                    vr + old_carry * pp == vd * m,
                    t == dig * m + old_carry,
            ;
            assert(dig * pp * m == dig * m * pp) by (nonlinear_arith);
            assert((dig * pp + vd) * m == dig * pp * m + vd * m) by (nonlinear_arith);
        }
    }
    let ghost before = r@;
    r.insert(0, digit(carry as u64));
    proof {
        let nd = digit_char(carry as nat);
        lemma_digit_char_value(carry as nat);
        assert(r@ == seq![nd] + before);
        lemma_value_append(seq![nd], before);
        lemma_value_one(nd);
        assert(d@.skip(0) == d@);
        assert forall|k: int| 0 <= k < r@.len() implies '0' <= #[trigger] r@[k] <= '9' by {
            if k > 0 {
                assert(r@[k] == before[k - 1]);
            }
        }
    }
    r
}

/// `d` without its leading zeros; `d` must hold a nonzero digit.
pub(crate) fn strip_zeros(d: &Vec<char>) -> (r: Vec<char>)
    requires
        all_digits(d@),
        digits_value(d@) > 0,
    ensures
        significant(r@),
        digits_value(r@) == digits_value(d@),
        r@.len() <= d@.len(),
{
    let n = d.len();
    let mut k: usize = 0;
    while k < n && d[k] == '0'
        invariant
            k <= n == d@.len(),
            d@.take(k as int) == zeros(k as nat),
        decreases n - k,
    {
        assert(d@.take(k + 1) == d@.take(k as int).push('0'));
        assert(zeros((k + 1) as nat) == zeros(k as nat).push('0'));
        k = k + 1;
    }
    proof {
        assert(d@ == d@.take(k as int) + d@.skip(k as int));
        lemma_value_append(d@.take(k as int), d@.skip(k as int));
        lemma_value_zeros(k as nat);
    }
    if k == n {
        proof {
            assert(d@.skip(k as int) =~= Seq::<char>::empty());
        }
    }
    let mut r: Vec<char> = Vec::new();
    let mut i: usize = k;
    while i < n
        invariant
            k <= i <= n == d@.len(),
            r@ == d@.subrange(k as int, i as int),
        decreases n - i,
    {
        r.push(d[i]);
        i = i + 1;
        assert(d@.subrange(k as int, i as int) == d@.subrange(k as int, i - 1).push(d@[i - 1]));
    }
    assert(r@ == d@.skip(k as int));
    assert forall|j: int| 0 <= j < r@.len() implies '0' <= #[trigger] r@[j] <= '9' by {
        assert(r@[j] == d@[k + j]);
    }
    r
}

/// The decimal digits of `n` stand for `n`, the first of them nonzero when
/// `n` is.
proof fn lemma_decimal_value(n: nat)
    ensures
        digits_value(decimal(n)) == n,
        all_digits(decimal(n)),
        n > 0 ==> decimal(n)[0] != '0',
    decreases n,
{
    if n >= 10 {
        lemma_decimal_value(n / 10);
        let p = decimal(n / 10);
        assert(decimal(n).drop_last() == p);
        assert forall|i: int| 0 <= i < decimal(n).len() implies '0' <= #[trigger] decimal(n)[i]
            <= '9' by {
            if i < p.len() {
                assert(decimal(n)[i] == p[i]);
            }
        }
        assert(decimal(n)[0] == p[0]);
        lemma_digit_char_value(n % 10);
        assert(decimal(n).last() == digit_char(n % 10));
        assert(digits_value(decimal(n)) == digits_value(p) * 10 + (n % 10));
    } else {
        assert(decimal(n).drop_last() =~= Seq::<char>::empty());
        assert(digits_value(Seq::<char>::empty()) == 0);
        lemma_digit_char_value(n);
        assert(decimal(n).last() == digit_char(n));
    }
}

/// The least magnitude that rounds to infinity as an `f32`: halfway between
/// the largest finite `f32`, 2^128 - 2^104, and 2^128 (a tie goes to 2^128,
/// whose significand is even).
pub open spec fn f32_overflow() -> int {
    pow(2, 128) - pow(2, 103)
}

/// `n * 10^e`, rounded to the nearest `f32` with ties to even, is finite and
/// above zero: it is above 2^-150, half the least subnormal (a tie goes to
/// zero), and below `f32_overflow()`.
pub open spec fn rounds_positive(n: nat, e: int) -> bool {
    if e >= 0 {
        0 < n && n * pow(10, e as nat) < f32_overflow()
    } else {
        pow(10, (-e) as nat) < n * pow(2, 150) && n < f32_overflow() * pow(10, (-e) as nat)
    }
}

proof fn lemma_bounds()
    ensures
        0 < f32_overflow() < pow(2, 128),
        pow(2, 128) < pow(10, 40),
        pow(2, 150) < pow(10, 46),
        pow(2, 128) == 33554432 * pow(2, 103),
        pow(10, 150) == pow(2, 150) * pow(5, 150),
{
    vstd::arithmetic::power::lemma_pow_positive(2, 103);
    vstd::arithmetic::power::lemma_pow_adds(2, 25, 103);
    assert(pow(2, 25) == 33554432) by {
        reveal_with_fuel(pow, 26);
    }
    assert(pow(2, 32) == 0x1_0000_0000) by {
        reveal_with_fuel(pow, 33);
    }
    assert(pow(10, 20) == 100_000_000_000_000_000_000) by {
        reveal_with_fuel(pow, 21);
    }
    assert(pow(2, 22) == 0x40_0000) by {
        reveal_with_fuel(pow, 23);
    }
    assert(pow(10, 6) == 1_000_000) by {
        reveal_with_fuel(pow, 7);
    }
    vstd::arithmetic::power::lemma_pow_adds(2, 32, 32);
    assert(pow(2, 64) == 0x1_0000_0000_0000_0000);
    vstd::arithmetic::power::lemma_pow_adds(2, 64, 64);
    assert(pow(2, 128) == 0x1_0000_0000_0000_0000_0000_0000_0000_0000);
    vstd::arithmetic::power::lemma_pow_adds(2, 128, 22);
    assert(pow(2, 150) == 0x40_0000_0000_0000_0000_0000_0000_0000_0000_0000);
    vstd::arithmetic::power::lemma_pow_adds(10, 20, 20);
    assert(pow(10, 40) == 10_000_000_000_000_000_000_000_000_000_000_000_000_000);
    vstd::arithmetic::power::lemma_pow_adds(10, 40, 6);
    assert(pow(10, 46) == 10_000_000_000_000_000_000_000_000_000_000_000_000_000_000_000);
    vstd::arithmetic::power::lemma_pow_distributes(2, 5, 150);
}

/// The digits of 5^150.
fn five_to_150() -> (r: Vec<char>)
    ensures
        significant(r@),
        digits_value(r@) == pow(5, 150),
{
    let mut d: Vec<char> = vec!['1'];
    proof {
        assert(d@ =~= seq!['1']);
        lemma_value_one('1');
        assert(pow(5, 0) == 1) by {
            reveal(pow);
        }
    }
    for i in 0..150
        invariant
            significant(d@),
            digits_value(d@) == pow(5, i as nat),
    {
        let t = times_small(&d, 5);
        proof {
            vstd::arithmetic::power::lemma_pow_positive(5, i as nat);
            lemma_pow_step(5, i as nat);
        }
        d = strip_zeros(&t);
    }
    d
}

/// The digits of `f32_overflow()`, 33554431 * 2^103.
fn overflow_digits() -> (r: Vec<char>)
    ensures
        significant(r@),
        digits_value(r@) == f32_overflow(),
{
    let mut s = String::new();
    push_decimal(&mut s, 33554431);
    let mut d = crate::text::chars_of(s.as_str());
    proof {
        assert(d@ == decimal(33554431));
        lemma_decimal_value(33554431);
        reveal(pow);
        lemma_bounds();
    }
    for i in 0..103
        invariant
            significant(d@),
            digits_value(d@) == 33554431 * pow(2, i as nat),
    {
        let t = times_small(&d, 2);
        proof {
            vstd::arithmetic::power::lemma_pow_positive(2, i as nat);
            lemma_pow_step(2, i as nat);
        }
        d = strip_zeros(&t);
    }
    proof {
        lemma_bounds();
    }
    d
}

pub(crate) proof fn lemma_too_large(d: Seq<char>, e: int)
    requires
        significant(d),
        d.len() + e >= 41,
    ensures
        !rounds_positive(digits_value(d), e),
{
    lemma_bounds();
    lemma_value_above(d);
    let n = digits_value(d) as int;
    let l = (d.len() - 1) as nat;
    if e >= 0 {
        vstd::arithmetic::power::lemma_pow_adds(10, l, e as nat);
        vstd::arithmetic::power::lemma_pow_increases(10, 40, l + e as nat);
        vstd::arithmetic::power::lemma_pow_positive(10, e as nat);
        let pe = pow(10, e as nat);
        let pl = pow(10, l);
        assert(n * pe >= pl * pe) by (nonlinear_arith)
            requires
                n >= pl,
                pe > 0,
        ;
    } else {
        let k = (-e) as nat;
        let r = (l - k) as nat;
        vstd::arithmetic::power::lemma_pow_adds(10, r, k);
        vstd::arithmetic::power::lemma_pow_increases(10, 40, r);
        vstd::arithmetic::power::lemma_pow_positive(10, k);
        let pk = pow(10, k);
        let pr = pow(10, r);
        assert(f32_overflow() * pk < pr * pk) by (nonlinear_arith)
            requires
                f32_overflow() < pr,
                pk > 0,
        ;
    }
}

pub(crate) proof fn lemma_too_small(d: Seq<char>, e: int)
    requires
        significant(d),
        d.len() + e <= -46,
    ensures
        !rounds_positive(digits_value(d), e),
{
    lemma_bounds();
    lemma_value_below(d);
    let n = digits_value(d) as int;
    let k = (-e) as nat;
    let l = d.len();
    vstd::arithmetic::power::lemma_pow_adds(10, l, 46);
    vstd::arithmetic::power::lemma_pow_increases(10, l + 46, k);
    vstd::arithmetic::power::lemma_pow_positive(2, 150);
    let pl = pow(10, l);
    let t = pow(2, 150);
    assert(n * t < pl * pow(10, 46)) by (nonlinear_arith)
        requires
            0 <= n < pl,
            0 < t < pow(10, 46),
    ;
}

/// Whether the number whose digits are `d`, times 10^e, rounds to a finite
/// `f32` above zero.
pub fn rounds_positive_exec(d: &Vec<char>, e: i128) -> (r: bool)
    requires
        significant(d@),
        -0x1_0000_0000_0000_0000_0000_0000 < e < 0x1_0000_0000_0000_0000_0000_0000,
    ensures
        r == rounds_positive(digits_value(d@), e as int),
{
    let l = d.len() as i128;
    if l + e >= 41 {
        proof {
            lemma_too_large(d@, e as int);
        }
        return false;
    }
    if l + e <= -46 {
        proof {
            lemma_too_small(d@, e as int);
        }
        return false;
    }
    let lim = overflow_digits();
    let ghost n = digits_value(d@) as int;
    proof {
        lemma_bounds();
        reveal(pow);
        assert(digits_value(d@) > 0) by {
            lemma_value_above(d@);
            vstd::arithmetic::power::lemma_pow_positive(10, (d@.len() - 1) as nat);
        }
    }
    if e >= 0 {
        let c = compare_scaled(d, e as u128, &lim, 0);
        return c < 0;
    }
    let k = (0 - e) as u128;
    let five = five_to_150();
    let ghost pk = pow(10, k as nat);
    let ghost t = pow(2, 150);
    let ghost f = pow(5, 150);
    proof {
        vstd::arithmetic::power::lemma_pow_positive(5, 150);
        assert(scaled(d@, 150) == n * (t * f));
        assert(scaled(five@, k as nat) == f * pk);
        assert((n * (t * f) <= f * pk) == (n * t <= pk)) by (nonlinear_arith)
            requires
                f > 0,
        ;
    }
    if compare_scaled(d, 150, &five, k) <= 0 {
        return false;
    }
    compare_scaled(d, 0, &lim, k) < 0
}

/// A run of digits with a nonzero digit among them stands for a number
/// above zero.
pub(crate) proof fn lemma_value_positive(d: Seq<char>, i: int)
    requires
        all_digits(d),
        0 <= i < d.len(),
        '1' <= d[i] <= '9',
    ensures
        digits_value(d) > 0,
{
    let rest = d.skip(i + 1);
    assert(d == d.take(i) + seq![d[i]] + rest);
    lemma_value_append(d.take(i) + seq![d[i]], rest);
    lemma_value_append(d.take(i), seq![d[i]]);
    lemma_value_one(d[i]);
    vstd::arithmetic::power::lemma_pow_positive(10, rest.len());
    let p = pow(10, rest.len());
    let t = digits_value(d.take(i)) as int;
    let c = (d[i] as int) - 48;
    reveal_with_fuel(pow, 2);
    assert(digits_value(d.take(i) + seq![d[i]]) == t * 10 + c);
    assert(digits_value(d) == (t * 10 + c) * p + digits_value(rest));
    assert((t * 10 + c) * p > 0) by (nonlinear_arith)
        requires
            t >= 0,
            c >= 1,
            p > 0,
    ;
}

} // verus!
