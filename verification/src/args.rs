//! Command-line arguments: flags, their values, and the checks on them.
//!
//! Sizes of paper are in hundredths of a point. The type size is kept as the
//! text given: it is checked here to be a number in Rust's float syntax whose
//! value, rounded to an `f32`, is finite and above zero; the program then
//! reads it as that float.

use vstd::prelude::*;

use crate::magnitude::{
    lemma_too_large, lemma_too_small, lemma_value_positive, rounds_positive, rounds_positive_exec,
    strip_zeros,
};
use crate::problem::{eq_str, lowered_trim, op_named, Op};
use crate::text::{
    all_digits, chars_of, first_index, find_char, lower, push_char, same_text, string_of, trim,
};

verus! {

/// Rust's `Debug` rendering of a string: the text between double quotes,
/// with escapes.
pub uninterp spec fn quoted(s: Seq<char>) -> Seq<char>;

/// Calls std's `Debug` formatting for `str` (`format!("{:?}", s)`). The
/// result is a function of the text alone; what it is, character by
/// character, is left unsaid here.
#[verifier::external_body]
fn debug_quoted(s: &str) -> (q: String)
    ensures
        q@ == quoted(s@),
{
    format!("{:?}", s)
}

/// An error message that quotes a value: `before`, the value as quoted, `after`.
pub fn quoted_message(before: &str, quoted: &str, after: &str) -> (m: String)
    ensures
        m@ == before@ + quoted@ + after@,
{
    let mut m = owned(before);
    m.append(quoted);
    m.append(after);
    m
}

/// Value of a run of decimal digits.
pub open spec fn digits_value(s: Seq<char>) -> nat
    decreases s.len(),
{
    if s.len() == 0 {
        0
    } else {
        digits_value(s.drop_last()) * 10 + ((s.last() as int) - 48) as nat
    }
}

/// The value of `s` as Rust's `from_str` reads an unsigned integer: an
/// optional `+`, then one or more digits; nothing when the value exceeds `max`.
pub open spec fn parse_unsigned(s: Seq<char>, max: nat) -> Option<nat> {
    let body = if s.len() > 0 && s[0] == '+' {
        s.drop_first()
    } else {
        s
    };
    if body.len() > 0 && all_digits(body) && digits_value(body) <= max {
        Some(digits_value(body))
    } else {
        None
    }
}

/// The value of `s` as Rust's `from_str` reads an `i64`: an optional sign,
/// then one or more digits; nothing when the value is out of range.
pub open spec fn parse_i64(s: Seq<char>) -> Option<int> {
    if s.len() > 0 && s[0] == '-' {
        let body = s.drop_first();
        if body.len() > 0 && all_digits(body) && digits_value(body) <= 0x8000_0000_0000_0000 {
            Some(-digits_value(body))
        } else {
            None
        }
    } else {
        match parse_unsigned(s, i64::MAX as nat) {
            Some(v) => Some(v as int),
            None => None,
        }
    }
}

proof fn lemma_digits_value_step(s: Seq<char>, k: int)
    requires
        0 <= k < s.len(),
        '0' <= s[k] <= '9',
    ensures
        digits_value(s.take(k + 1)) == digits_value(s.take(k)) * 10 + ((s[k] as int) - 48),
{
    assert(s.take(k + 1).drop_last() == s.take(k));
}

proof fn lemma_digits_value_prefix(s: Seq<char>, k: int)
    requires
        0 <= k <= s.len(),
        all_digits(s),
    ensures
        digits_value(s.take(k)) <= digits_value(s),
    decreases s.len() - k,
{
    if k < s.len() {
        let t = s.drop_last();
        assert(t.take(k) == s.take(k));
        assert forall|i: int| 0 <= i < t.len() implies '0' <= #[trigger] t[i] <= '9' by {
            assert(t[i] == s[i]);
        }
        lemma_digits_value_prefix(t, k);
    } else {
        assert(s.take(k) == s);
    }
}

/// The digits of `v@.skip(from)`, when they all are digits, there is at least
/// one, and their value is at most `max`.
fn digits_at_most(v: &Vec<char>, from: usize, max: u64) -> (r: Option<u64>)
    requires
        from <= v@.len(),
    ensures
        ({
            let body = v@.skip(from as int);
            match r {
                Some(x) => body.len() > 0 && all_digits(body) && digits_value(body) == x && x
                    <= max,
                None => !(body.len() > 0 && all_digits(body) && digits_value(body) <= max),
            }
        }),
{
    let ghost body = v@.skip(from as int);
    let n = v.len();
    if from == n {
        return None;
    }
    let mut acc: u64 = 0;
    let mut k: usize = from;
    while k < n
        invariant
            from <= k <= n,
            n == v@.len(),
            body == v@.skip(from as int),
            all_digits(body.take(k - from)),
            acc == digits_value(body.take(k - from)),
            acc <= max,
        decreases n - k,
    {
        let c = v[k];
        assert(body[k - from] == c);
        if !('0' <= c && c <= '9') {
            return None;
        }
        let d = (c as u32 - 48) as u64;
        proof {
            lemma_digits_value_step(body, k - from);
            assert forall|i: int| 0 <= i < k + 1 - from implies '0' <= #[trigger] body.take(
                k + 1 - from,
            )[i] <= '9' by {
                if i < k - from {
                    assert(body.take(k + 1 - from)[i] == body.take(k - from)[i]);
                }
            }
        }
        if d > max || acc > (max - d) / 10 {
            proof {
                if all_digits(body) {
                    lemma_digits_value_prefix(body, k + 1 - from);
                }
            }
            return None;
        }
        acc = acc * 10 + d;
        k = k + 1;
    }
    assert(body.take(n - from) == body);
    Some(acc)
}

/// `s` read as an unsigned number no larger than `max`.
fn parse_unsigned_exec(s: &str, max: u64) -> (r: Option<u64>)
    ensures
        match parse_unsigned(s@, max as nat) {
            Some(v) => r == Some(v as u64),
            None => r is None,
        },
{
    let v = chars_of(s);
    let from: usize = if v.len() > 0 && v[0] == '+' {
        1
    } else {
        0
    };
    assert(from == 1 ==> v@.skip(1) == s@.drop_first());
    assert(v@.skip(0) == s@);
    digits_at_most(&v, from, max)
}

/// `s` read as an `i64`.
fn parse_i64_exec(s: &str) -> (r: Option<i64>)
    ensures
        match parse_i64(s@) {
            Some(v) => r == Some(v as i64),
            None => r is None,
        },
{
    let v = chars_of(s);
    if v.len() > 0 && v[0] == '-' {
        assert(v@.skip(1) == s@.drop_first());
        match digits_at_most(&v, 1, 0x8000_0000_0000_0000) {
            Some(m) => {
                if m == 0x8000_0000_0000_0000 {
                    Some(i64::MIN)
                } else {
                    Some(0 - (m as i64))
                }
            },
            None => None,
        }
    } else {
        match parse_unsigned_exec(s, 0x7FFF_FFFF_FFFF_FFFF) {
            Some(m) => Some(m as i64),
            None => None,
        }
    }
}

/// `s` is all digits, and holds at least one.
pub open spec fn digit_run(s: Seq<char>) -> bool {
    s.len() > 0 && all_digits(s)
}

/// Digits with at most one decimal point among them, and at least one digit.
pub open spec fn mantissa(m: Seq<char>) -> bool {
    match first_index(m, '.') {
        None => digit_run(m),
        Some(p) => all_digits(m.take(p as int)) && all_digits(m.skip(p + 1int)) && m.len() > 1,
    }
}

/// An optional sign, then one or more digits.
pub open spec fn exponent(x: Seq<char>) -> bool {
    if x.len() > 0 && (x[0] == '+' || x[0] == '-') {
        digit_run(x.drop_first())
    } else {
        digit_run(x)
    }
}

/// A mantissa, optionally followed by `e` and an exponent.
pub open spec fn decimal_number(b: Seq<char>) -> bool {
    match first_index(b, 'e') {
        None => mantissa(b),
        Some(e) => mantissa(b.take(e as int)) && exponent(b.skip(e + 1int)),
    }
}

/// `s` is in the grammar that Rust documents for reading a float: lower-cased,
/// an optional sign, then `inf`, `infinity`, `nan` or a decimal number.
pub open spec fn float_text(s: Seq<char>) -> bool {
    let b = sign_stripped(lower(s));
    b == "inf"@ || b == "infinity"@ || b == "nan"@ || decimal_number(b)
}

/// `l` without a leading sign.
pub open spec fn sign_stripped(l: Seq<char>) -> Seq<char> {
    if l.len() > 0 && (l[0] == '+' || l[0] == '-') {
        l.drop_first()
    } else {
        l
    }
}

/// The digits before any exponent.
pub open spec fn mantissa_part(b: Seq<char>) -> Seq<char> {
    match first_index(b, 'e') {
        Some(e) => b.take(e as int),
        None => b,
    }
}

pub open spec fn has_nonzero_digit(m: Seq<char>) -> bool {
    exists|i: int| 0 <= i < m.len() && '1' <= #[trigger] m[i] <= '9'
}

/// The digits of a mantissa with its point left out.
pub open spec fn point_dropped(m: Seq<char>) -> Seq<char> {
    match first_index(m, '.') {
        Some(p) => m.take(p as int) + m.skip(p + 1int),
        None => m,
    }
}

/// How many digits of a mantissa follow its point.
pub open spec fn fraction_len(m: Seq<char>) -> int {
    match first_index(m, '.') {
        Some(p) => m.len() - p - 1,
        None => 0,
    }
}

/// The exponent written after `e`, with its sign; zero when there is none.
pub open spec fn exponent_value(b: Seq<char>) -> int {
    match first_index(b, 'e') {
        None => 0,
        Some(e) => {
            let x = b.skip(e + 1int);
            if x.len() > 0 && x[0] == '-' {
                -digits_value(x.drop_first())
            } else if x.len() > 0 && x[0] == '+' {
                digits_value(x.drop_first()) as int
            } else {
                digits_value(x) as int
            }
        },
    }
}

/// A decimal text (lower-cased, without sign) that reads as a finite `f32`
/// above zero: its mantissa holds digits and a nonzero one among them, its
/// exponent is well formed, and the value, the mantissa's digits times ten
/// to the exponent less the digits after the point, rounds above zero and
/// below infinity.
pub open spec fn decimal_positive(b: Seq<char>) -> bool {
    let m = mantissa_part(b);
    &&& has_nonzero_digit(m)
    &&& all_digits(point_dropped(m))
    &&& (first_index(b, 'e') matches Some(e) ==> exponent(b.skip(e + 1int)))
    &&& rounds_positive(digits_value(point_dropped(m)), exponent_value(b) - fraction_len(m))
}

/// A float text that Rust reads as a finite `f32` above zero: no minus sign,
/// not infinite or not-a-number, and a decimal value that rounds to neither
/// zero nor infinity.
pub open spec fn positive_text(s: Seq<char>) -> bool {
    let l = lower(s);
    let b = sign_stripped(l);
    &&& !(l.len() > 0 && l[0] == '-')
    &&& b != "inf"@
    &&& b != "infinity"@
    &&& b != "nan"@
    &&& decimal_positive(b)
}

fn all_digits_in(v: &Vec<char>, from: usize, to: usize) -> (r: bool)
    requires
        from <= to <= v@.len(),
    ensures
        r == all_digits(v@.subrange(from as int, to as int)),
{
    let mut k = from;
    while k < to
        invariant
            from <= k <= to <= v@.len(),
            all_digits(v@.subrange(from as int, k as int)),
        decreases to - k,
    {
        if !('0' <= v[k] && v[k] <= '9') {
            assert(v@.subrange(from as int, to as int)[k - from] == v@[k as int]);
            return false;
        }
        k = k + 1;
        assert forall|i: int| 0 <= i < k - from implies '0' <= #[trigger] v@.subrange(
            from as int,
            k as int,
        )[i] <= '9' by {
            if i < k - 1 - from {
                assert(v@.subrange(from as int, k as int)[i] == v@.subrange(
                    from as int,
                    k - 1,
                )[i]);
            }
        }
    }
    true
}

fn mantissa_exec(m: &Vec<char>) -> (r: bool)
    ensures
        r == mantissa(m@),
{
    let n = m.len();
    match find_char(m, '.') {
        None => {
            assert(m@.subrange(0, n as int) == m@);
            n > 0 && all_digits_in(m, 0, n)
        },
        Some(p) => {
            assert(m@.subrange(0, p as int) == m@.take(p as int));
            assert(m@.subrange(p + 1, n as int) == m@.skip(p + 1));
            all_digits_in(m, 0, p) && all_digits_in(m, p + 1, n) && n > 1
        },
    }
}

fn exponent_exec(x: &Vec<char>, from: usize) -> (r: bool)
    requires
        from <= x@.len(),
    ensures
        r == exponent(x@.skip(from as int)),
{
    let n = x.len();
    let ghost t = x@.skip(from as int);
    let start = if from < n && (x[from] == '+' || x[from] == '-') {
        assert(t[0] == x@[from as int]);
        assert(t.drop_first() == x@.subrange(from + 1, n as int));
        from + 1
    } else {
        assert(t == x@.subrange(from as int, n as int));
        from
    };
    start < n && all_digits_in(x, start, n)
}

fn decimal_number_exec(b: &Vec<char>) -> (r: bool)
    ensures
        r == decimal_number(b@),
{
    let n = b.len();
    match find_char(b, 'e') {
        None => mantissa_exec(b),
        Some(e) => {
            assert(e < n);
            let mut m: Vec<char> = Vec::new();
            let mut k: usize = 0;
            while k < e
                invariant
                    k <= e < n == b@.len(),
                    m@ == b@.take(k as int),
                decreases e - k,
            {
                m.push(b[k]);
                k = k + 1;
                assert(b@.take(k as int) == b@.take(k - 1).push(b@[k - 1]));
            }
            mantissa_exec(&m) && exponent_exec(b, e + 1)
        },
    }
}

/// Whether `s` is a float as Rust's `f32::from_str` reads one.
fn float_text_exec(s: &str) -> (r: bool)
    ensures
        r == float_text(s@),
{
    let l = lower_chars(s);
    let b = strip_sign(&l);
    eq_str(&b, "inf") || eq_str(&b, "infinity") || eq_str(&b, "nan") || decimal_number_exec(&b)
}

fn strip_sign(l: &Vec<char>) -> (b: Vec<char>)
    ensures
        b@ == sign_stripped(l@),
{
    let n = l.len();
    if n > 0 && (l[0] == '+' || l[0] == '-') {
        let mut t: Vec<char> = Vec::new();
        let mut k: usize = 1;
        while k < n
            invariant
                1 <= k <= n == l@.len(),
                t@ == l@.subrange(1, k as int),
            decreases n - k,
        {
            t.push(l[k]);
            k = k + 1;
            assert(l@.subrange(1, k as int) == l@.subrange(1, k - 1).push(l@[k - 1]));
        }
        assert(l@.subrange(1, n as int) == l@.drop_first());
        t
    } else {
        l.clone()
    }
}

/// Whether `s` reads as a finite `f32` above zero.
fn positive_text_exec(s: &str) -> (r: bool)
    ensures
        r == positive_text(s@),
{
    let l = lower_chars(s);
    let b = strip_sign(&l);
    if (l.len() > 0 && l[0] == '-') || eq_str(&b, "inf") || eq_str(&b, "infinity") || eq_str(
        &b,
        "nan",
    ) {
        return false;
    }
    decimal_positive_exec(&b)
}

/// `v[from..to]` as a vector of its own.
fn copy_range(v: &Vec<char>, from: usize, to: usize) -> (r: Vec<char>)
    requires
        from <= to <= v@.len(),
    ensures
        r@ == v@.subrange(from as int, to as int),
{
    let mut r: Vec<char> = Vec::new();
    let mut k: usize = from;
    while k < to
        invariant
            from <= k <= to <= v@.len(),
            r@ == v@.subrange(from as int, k as int),
        decreases to - k,
    {
        r.push(v[k]);
        k = k + 1;
        assert(v@.subrange(from as int, k as int) == v@.subrange(from as int, k - 1).push(
            v@[k - 1],
        ));
    }
    r
}

/// The value of the digits `v[from..]`, or `cap` where it is larger.
fn capped_value(v: &Vec<char>, from: usize, cap: u128) -> (r: u128)
    requires
        from <= v@.len(),
        all_digits(v@.skip(from as int)),
        cap < 0x1_0000_0000_0000_0000_0000_0000,
    ensures
        r == if digits_value(v@.skip(from as int)) <= cap {
            digits_value(v@.skip(from as int))
        } else {
            cap as nat
        },
{
    let n = v.len();
    let mut acc: u128 = 0;
    let mut k: usize = from;
    assert(v@.subrange(from as int, from as int) =~= Seq::<char>::empty());
    assert(digits_value(Seq::<char>::empty()) == 0);
    while k < n
        invariant
            from <= k <= n == v@.len(),
            all_digits(v@.skip(from as int)),
            cap < 0x1_0000_0000_0000_0000_0000_0000,
            acc == if digits_value(v@.subrange(from as int, k as int)) <= cap {
                digits_value(v@.subrange(from as int, k as int))
            } else {
                cap as nat
            },
        decreases n - k,
    {
        assert(v@.skip(from as int)[k - from] == v@[k as int]);
        let d: u128 = (v[k] as u32 - 48) as u128;
        let t = acc * 10 + d;
        acc = if t > cap {
            cap
        } else {
            t
        };
        k = k + 1;
        assert(v@.subrange(from as int, k as int).drop_last() == v@.subrange(from as int, k - 1));
    }
    assert(v@.subrange(from as int, n as int) == v@.skip(from as int));
    acc
}

/// The digits of the mantissa `m` with its point left out, and how many
/// follow the point.
fn drop_point(m: &Vec<char>) -> (r: (Vec<char>, usize))
    ensures
        r.0@ == point_dropped(m@),
        r.1 == fraction_len(m@),
{
    let n = m.len();
    match find_char(m, '.') {
        Some(p) => {
            let mut d = copy_range(m, 0, p);
            let mut tail = copy_range(m, p + 1, m.len());
            d.append(&mut tail);
            assert(m@.take(p as int) == m@.subrange(0, p as int));
            assert(m@.skip(p + 1) == m@.subrange(p + 1, m@.len() as int));
            (d, m.len() - p - 1)
        },
        None => {
            assert(m@.subrange(0, m@.len() as int) == m@);
            (copy_range(m, 0, m.len()), 0)
        },
    }
}

/// A mantissa of digits with a nonzero one among them has digits worth more
/// than zero once its point is dropped.
proof fn lemma_dropped_positive(m: Seq<char>)
    requires
        exists|i: int| 0 <= i < m.len() && '1' <= #[trigger] m[i] <= '9',
        all_digits(point_dropped(m)),
    ensures
        digits_value(point_dropped(m)) > 0,
{
    let d = point_dropped(m);
    let i = choose|i: int| 0 <= i < m.len() && '1' <= #[trigger] m[i] <= '9';
    assert(has_nonzero_digit(m));
    match first_index(m, '.') {
        Some(p) => {
            crate::text::lemma_first_index_at(m, '.');
            if i < p {
                assert(d[i] == m[i]);
                lemma_value_positive(d, i);
            } else {
                assert(i != p);
                assert(d[i - 1] == m[i]);
                lemma_value_positive(d, i - 1);
            }
        },
        None => {
            lemma_value_positive(d, i);
        },
    }
}

/// Whether a lower-cased decimal text without sign reads as a finite `f32`
/// above zero.
fn decimal_positive_exec(b: &Vec<char>) -> (r: bool)
    ensures
        r == decimal_positive(b@),
{
    let n = b.len();
    let found_e = find_char(b, 'e');
    let end = match found_e {
        Some(e) => e,
        None => n,
    };
    let m = copy_range(b, 0, end);
    assert(m@ == mantissa_part(b@));
    let mut nonzero = false;
    let mut k: usize = 0;
    while k < m.len()
        invariant
            k <= m@.len(),
            nonzero == exists|i: int| 0 <= i < k && '1' <= #[trigger] m@[i] <= '9',
        decreases m@.len() - k,
    {
        if '1' <= m[k] && m[k] <= '9' {
            nonzero = true;
        }
        k = k + 1;
    }
    if !nonzero {
        return false;
    }
    let (d, frac) = drop_point(&m);
    assert(d@ == point_dropped(m@));
    assert(frac == fraction_len(m@));
    if !all_digits_in(&d, 0, d.len()) {
        return false;
    }
    assert(d@.subrange(0, d@.len() as int) == d@);
    let cap: u128 = 0x1_0000_0000_0000_0000_0000;
    let (negative, x) = match found_e {
        None => (false, 0u128),
        Some(e) => {
            if !exponent_exec(b, e + 1) {
                return false;
            }
            let ghost t = b@.skip(e + 1);
            if b[e + 1] == '-' || b[e + 1] == '+' {
                assert(t.drop_first() == b@.skip(e + 2));
                (b[e + 1] == '-', capped_value(b, e + 2, cap))
            } else {
                (false, capped_value(b, e + 1, cap))
            }
        },
    };
    proof {
        lemma_dropped_positive(m@);
    }
    let ds = strip_zeros(&d);
    let xe: i128 = if negative {
        0 - (x as i128)
    } else {
        x as i128
    };
    let ex: i128 = xe - frac as i128;
    let r = rounds_positive_exec(&ds, ex);
    proof {
        let full = exponent_value(b@) - fraction_len(m@);
        let nv = digits_value(d@);
        if full != ex as int {
            assert(found_e is Some);
            if negative {
                assert(full <= ex);
                lemma_too_small(ds@, ex as int);
                lemma_too_small(ds@, full);
            } else {
                assert(full >= ex);
                lemma_too_large(ds@, ex as int);
                lemma_too_large(ds@, full);
            }
        }
    }
    r
}

/// The characters of `s` with ASCII capitals lowered.
fn lower_chars(s: &str) -> (l: Vec<char>)
    ensures
        l@ == lower(s@),
{
    let v = chars_of(s);
    let mut l: Vec<char> = Vec::new();
    for k in 0..v.len()
        invariant
            v@ == s@,
            l@ == lower(s@.take(k as int)),
    {
        let c = v[k];
        let d = if 'A' <= c && c <= 'Z' {
            ((c as u32 + 32) as u8) as char
        } else {
            c
        };
        l.push(d);
        assert(lower(s@.take(k + 1)) == lower(s@.take(k as int)).push(d));
    }
    assert(s@.take(s@.len() as int) == s@);
    l
}

/// What the arguments ask for, as plain values.
#[verifier::ext_equal]
pub struct Settings {
    pub count: usize,
    pub output: Seq<char>,
    pub ops: Seq<Op>,
    pub lo: i64,
    pub hi: i64,
    pub simple: bool,
    pub cols: usize,
    pub rows: usize,
    /// The type size as given, in Rust's float syntax.
    pub font_size: Seq<char>,
    /// Paper width and height in hundredths of a point.
    pub paper: (i64, i64),
    pub title: Seq<char>,
    pub subtitle: Option<Seq<char>>,
    pub answers: bool,
    pub seed: Option<u64>,
}

/// What the arguments come to.
pub enum Parsed {
    Run(Settings),
    Help,
    Version,
    Failed(Seq<char>),
}

/// After one flag: carry on from argument `i` with these settings, or stop.
pub enum Step {
    Next(nat, Settings),
    Stop(Parsed),
}

pub open spec fn defaults() -> Settings {
    Settings {
        count: 18,
        output: "math-worksheet.pdf"@,
        ops: seq![Op::Add],
        lo: 10,
        hi: 99,
        simple: false,
        cols: 3,
        rows: 3,
        font_size: "52"@,
        paper: (61200, 79200),
        title: "Math Practice"@,
        subtitle: None,
        answers: false,
        seed: None,
    }
}

/// An argument split into its flag and a value given after `=`: the split is
/// made at the first `=`, and only when what comes before it starts with `--`.
pub open spec fn split_flag(arg: Seq<char>) -> (Seq<char>, Option<Seq<char>>) {
    match first_index(arg, '=') {
        Some(p) => if p >= 2 && arg[0] == '-' && arg[1] == '-' {
            (arg.take(p as int), Some(arg.skip(p + 1int)))
        } else {
            (arg, None)
        },
        None => (arg, None),
    }
}

/// The value of a flag: the one given after `=`, or else the next argument,
/// with the position of the argument after it.
pub open spec fn take_value(inline: Option<Seq<char>>, args: Seq<Seq<char>>, j: nat) -> Option<
    (Seq<char>, nat),
> {
    match inline {
        Some(v) => Some((v, j)),
        None => if j < args.len() {
            Some((args[j as int], j + 1))
        } else {
            None
        },
    }
}

pub open spec fn number_error(flag: Seq<char>, raw: Seq<char>) -> Seq<char> {
    flag + " expects a number, got "@ + quoted(raw)
}

/// The pieces of `s` between commas, as `str::split(',')` yields them.
pub open spec fn split_commas(s: Seq<char>) -> Seq<Seq<char>>
    decreases s.len(),
{
    if s.len() == 0 {
        seq![Seq::empty()]
    } else {
        let prev = split_commas(s.drop_last());
        if s.last() == ',' {
            prev.push(Seq::empty())
        } else {
            prev.update(prev.len() - 1, prev.last().push(s.last()))
        }
    }
}

/// The operations named by the non-blank pieces, each kept once in the order
/// first named; or the error for the first piece that names none.
pub open spec fn ops_from(parts: Seq<Seq<char>>) -> Result<Seq<Op>, Seq<char>>
    decreases parts.len(),
{
    if parts.len() == 0 {
        Ok(Seq::empty())
    } else {
        match ops_from(parts.drop_last()) {
            Err(m) => Err(m),
            Ok(ops) => {
                let part = parts.last();
                if trim(part).len() == 0 {
                    Ok(ops)
                } else {
                    match op_named(part) {
                        None => Err(
                            "unknown operation "@ + quoted(part) + " (choose from add, sub, mul)"@,
                        ),
                        Some(op) => if ops.contains(op) {
                            Ok(ops)
                        } else {
                            Ok(ops.push(op))
                        },
                    }
                }
            },
        }
    }
}

/// What a flag that takes a value does with `raw`; `k` is where the next flag is.
pub open spec fn apply_value(flag: Seq<char>, raw: Seq<char>, k: nat, st: Settings) -> Step {
    if flag == "-n"@ || flag == "--count"@ {
        match parse_unsigned(raw, usize::MAX as nat) {
            None => Step::Stop(Parsed::Failed(number_error("--count"@, raw))),
            Some(v) => if v == 0 {
                Step::Stop(Parsed::Failed("--count must be 1 or greater"@))
            } else {
                Step::Next(k, Settings { count: v as usize, ..st })
            },
        }
    } else if flag == "-o"@ || flag == "--output"@ {
        Step::Next(k, Settings { output: raw, ..st })
    } else if flag == "--ops"@ {
        match ops_from(split_commas(raw)) {
            Err(m) => Step::Stop(Parsed::Failed(m)),
            Ok(ops) => if ops.len() == 0 {
                Step::Stop(Parsed::Failed("--ops needs at least one operation"@))
            } else {
                Step::Next(k, Settings { ops, ..st })
            },
        }
    } else if flag == "--min"@ {
        match parse_i64(raw) {
            None => Step::Stop(Parsed::Failed(number_error("--min"@, raw))),
            Some(v) => Step::Next(k, Settings { lo: v as i64, ..st }),
        }
    } else if flag == "--max"@ {
        match parse_i64(raw) {
            None => Step::Stop(Parsed::Failed(number_error("--max"@, raw))),
            Some(v) => Step::Next(k, Settings { hi: v as i64, ..st }),
        }
    } else if flag == "--cols"@ {
        match parse_unsigned(raw, usize::MAX as nat) {
            None => Step::Stop(Parsed::Failed(number_error("--cols"@, raw))),
            Some(v) => Step::Next(k, Settings { cols: v as usize, ..st }),
        }
    } else if flag == "--rows"@ {
        match parse_unsigned(raw, usize::MAX as nat) {
            None => Step::Stop(Parsed::Failed(number_error("--rows"@, raw))),
            Some(v) => Step::Next(k, Settings { rows: v as usize, ..st }),
        }
    } else if flag == "--font-size"@ {
        if float_text(raw) {
            Step::Next(k, Settings { font_size: raw, ..st })
        } else {
            Step::Stop(Parsed::Failed(number_error("--font-size"@, raw)))
        }
    } else if flag == "--paper"@ {
        let l = lower(raw);
        if l == "letter"@ {
            Step::Next(k, Settings { paper: (61200, 79200), ..st })
        } else if l == "a4"@ {
            Step::Next(k, Settings { paper: (59528, 84189), ..st })
        } else {
            Step::Stop(Parsed::Failed("unknown paper "@ + quoted(l) + " (choose letter or a4)"@))
        }
    } else if flag == "--title"@ {
        Step::Next(k, Settings { title: raw, ..st })
    } else if flag == "--subtitle"@ {
        Step::Next(k, Settings { subtitle: Some(raw), ..st })
    } else {
        // the seed
        match parse_unsigned(raw, u64::MAX as nat) {
            None => Step::Stop(Parsed::Failed(number_error("--seed"@, raw))),
            Some(v) => Step::Next(k, Settings { seed: Some(v as u64), ..st }),
        }
    }
}

/// The flags that take a value.
pub open spec fn takes_value(flag: Seq<char>) -> bool {
    ||| flag == "-n"@
    ||| flag == "--count"@
    ||| flag == "-o"@
    ||| flag == "--output"@
    ||| flag == "--ops"@
    ||| flag == "--min"@
    ||| flag == "--max"@
    ||| flag == "--cols"@
    ||| flag == "--rows"@
    ||| flag == "--font-size"@
    ||| flag == "--paper"@
    ||| flag == "--title"@
    ||| flag == "--subtitle"@
    ||| flag == "--seed"@
}

/// What argument `i` does.
pub open spec fn step(args: Seq<Seq<char>>, i: nat, st: Settings) -> Step {
    let (flag, inline) = split_flag(args[i as int]);
    if flag == "-h"@ || flag == "--help"@ {
        Step::Stop(Parsed::Help)
    } else if flag == "-V"@ || flag == "--version"@ {
        Step::Stop(Parsed::Version)
    } else if flag == "--simple"@ {
        Step::Next(i + 1, Settings { simple: true, ..st })
    } else if flag == "--answers"@ {
        Step::Next(i + 1, Settings { answers: true, ..st })
    } else if takes_value(flag) {
        match take_value(inline, args, i + 1) {
            None => Step::Stop(Parsed::Failed(flag + " needs a value"@)),
            Some((raw, k)) => apply_value(flag, raw, k, st),
        }
    } else {
        Step::Stop(
            Parsed::Failed(
                "unrecognized argument "@ + quoted(flag) + "\n\nRun `mathgen --help` for usage."@,
            ),
        )
    }
}

/// The checks made once every argument is read.
pub open spec fn finish(st: Settings) -> Parsed {
    if st.lo > st.hi {
        Parsed::Failed("--min cannot be greater than --max"@)
    } else if st.lo < 0 {
        Parsed::Failed("--min cannot be negative"@)
    } else if st.cols == 0 || st.rows == 0 {
        Parsed::Failed("--cols and --rows must be 1 or greater"@)
    } else if !positive_text(st.font_size) {
        Parsed::Failed("--font-size must be a positive number"@)
    } else {
        Parsed::Run(st)
    }
}

/// The outcome of reading the arguments from position `i` on.
pub open spec fn parse_from(args: Seq<Seq<char>>, i: nat, st: Settings) -> Parsed
    decreases args.len() - i,
{
    if i >= args.len() {
        finish(st)
    } else {
        match step(args, i, st) {
            Step::Stop(p) => p,
            Step::Next(j, st2) => parse_from(args, j, st2),
        }
    }
}

/// The outcome of reading all arguments, from the defaults.
pub open spec fn parsed(args: Seq<Seq<char>>) -> Parsed {
    parse_from(args, 0, defaults())
}

pub struct Config {
    pub count: usize,
    pub output: String,
    pub ops: Vec<Op>,
    pub lo: i64,
    pub hi: i64,
    pub simple: bool,
    pub cols: usize,
    pub rows: usize,
    pub font_size: String,
    pub paper: (i64, i64),
    pub title: String,
    pub subtitle: Option<String>,
    pub answers: bool,
    pub seed: Option<u64>,
}

impl View for Config {
    type V = Settings;

    open spec fn view(&self) -> Settings {
        Settings {
            count: self.count,
            output: self.output@,
            ops: self.ops@,
            lo: self.lo,
            hi: self.hi,
            simple: self.simple,
            cols: self.cols,
            rows: self.rows,
            font_size: self.font_size@,
            paper: self.paper,
            title: self.title@,
            subtitle: match self.subtitle {
                Some(t) => Some(t@),
                None => None,
            },
            answers: self.answers,
            seed: self.seed,
        }
    }
}

/// What `parse` decided we should do.
pub enum Action {
    Run(Box<Config>),
    Help,
    Version,
}

/// A string holding the characters of `t`.
fn owned(t: &str) -> (s: String)
    ensures
        s@ == t@,
{
    let mut s = String::new();
    s.append(t);
    s
}

/// The view of each argument.
pub open spec fn texts(args: Seq<String>) -> Seq<Seq<char>> {
    args.map_values(|a: String| a@)
}

/// The outcome `parse` gives for `p`.
pub open spec fn outcome_matches(r: Result<Action, String>, p: Parsed) -> bool {
    match p {
        Parsed::Run(st) => r matches Ok(Action::Run(c)) && c@ == st,
        Parsed::Help => r matches Ok(Action::Help),
        Parsed::Version => r matches Ok(Action::Version),
        Parsed::Failed(m) => r matches Err(e) && e@ == m,
    }
}

impl Default for Config {
    fn default() -> (c: Config)
        ensures
            c@ == defaults(),
    {
        let mut ops = Vec::new();
        ops.push(Op::Add);
        Config {
            count: 18,
            output: owned("math-worksheet.pdf"),
            ops,
            lo: 10,
            hi: 99,
            simple: false,
            cols: 3,
            rows: 3,
            font_size: owned("52"),
            paper: (61200, 79200),
            title: owned("Math Practice"),
            subtitle: None,
            answers: false,
            seed: None,
        }
    }
}

impl Config {
    fn finish(self) -> (r: Result<Action, String>)
        ensures
            outcome_matches(r, finish(self@)),
    {
        if self.lo > self.hi {
            return Err(owned("--min cannot be greater than --max"));
        }
        if self.lo < 0 {
            return Err(owned("--min cannot be negative"));
        }
        if self.cols == 0 || self.rows == 0 {
            return Err(owned("--cols and --rows must be 1 or greater"));
        }
        if !positive_text_exec(self.font_size.as_str()) {
            return Err(owned("--font-size must be a positive number"));
        }
        Ok(Action::Run(Box::new(self)))
    }

    /// Applies `raw` as the value of `flag`.
    fn apply_value(&mut self, flag: &str, raw: String, k: usize) -> (r: Result<
        usize,
        Result<Action, String>,
    >)
        requires
            takes_value(flag@),
        ensures
            match apply_value(flag@, raw@, k as nat, old(self)@) {
                Step::Next(j, st) => r == Ok::<usize, Result<Action, String>>(k) && j == k
                    && final(self)@ == st,
                Step::Stop(p) => r matches Err(o) && outcome_matches(o, p),
            },
    {
        let f = flag;
        if same_text(f, "-n") || same_text(f, "--count") {
            match parse_unsigned_exec(raw.as_str(), usize::MAX as u64) {
                None => Err(Err(number_error_text("--count", raw.as_str()))),
                Some(v) => {
                    if v == 0 {
                        Err(Err(owned("--count must be 1 or greater")))
                    } else {
                        self.count = v as usize;
                        Ok(k)
                    }
                },
            }
        } else if same_text(f, "-o") || same_text(f, "--output") {
            self.output = raw;
            Ok(k)
        } else if same_text(f, "--ops") {
            let parts = split_commas_exec(raw.as_str());
            match ops_from_exec(&parts) {
                Err(m) => Err(Err(m)),
                Ok(ops) => {
                    if ops.len() == 0 {
                        Err(Err(owned("--ops needs at least one operation")))
                    } else {
                        self.ops = ops;
                        Ok(k)
                    }
                },
            }
        } else if same_text(f, "--min") {
            match parse_i64_exec(raw.as_str()) {
                None => Err(Err(number_error_text("--min", raw.as_str()))),
                Some(v) => {
                    self.lo = v;
                    Ok(k)
                },
            }
        } else if same_text(f, "--max") {
            match parse_i64_exec(raw.as_str()) {
                None => Err(Err(number_error_text("--max", raw.as_str()))),
                Some(v) => {
                    self.hi = v;
                    Ok(k)
                },
            }
        } else if same_text(f, "--cols") {
            match parse_unsigned_exec(raw.as_str(), usize::MAX as u64) {
                None => Err(Err(number_error_text("--cols", raw.as_str()))),
                Some(v) => {
                    self.cols = v as usize;
                    Ok(k)
                },
            }
        } else if same_text(f, "--rows") {
            match parse_unsigned_exec(raw.as_str(), usize::MAX as u64) {
                None => Err(Err(number_error_text("--rows", raw.as_str()))),
                Some(v) => {
                    self.rows = v as usize;
                    Ok(k)
                },
            }
        } else if same_text(f, "--font-size") {
            if float_text_exec(raw.as_str()) {
                self.font_size = raw;
                Ok(k)
            } else {
                Err(Err(number_error_text("--font-size", raw.as_str())))
            }
        } else if same_text(f, "--paper") {
            let l = lower_chars(raw.as_str());
            if eq_str(&l, "letter") {
                self.paper = (61200, 79200);
                Ok(k)
            } else if eq_str(&l, "a4") {
                self.paper = (59528, 84189);
                Ok(k)
            } else {
                let other = string_of(&l, 0, l.len());
                assert(l@.subrange(0, l@.len() as int) == l@);
                let q = debug_quoted(other.as_str());
                Err(Err(quoted_message("unknown paper ", q.as_str(), " (choose letter or a4)")))
            }
        } else if same_text(f, "--title") {
            self.title = raw;
            Ok(k)
        } else if same_text(f, "--subtitle") {
            self.subtitle = Some(raw);
            Ok(k)
        } else {
            match parse_unsigned_exec(raw.as_str(), u64::MAX) {
                None => Err(Err(number_error_text("--seed", raw.as_str()))),
                Some(v) => {
                    self.seed = Some(v);
                    Ok(k)
                },
            }
        }
    }

    /// Reads argument `i`, and its value when it takes one.
    fn step(&mut self, args: &Vec<String>, i: usize) -> (r: Result<usize, Result<Action, String>>)
        requires
            i < args@.len(),
        ensures
            match step(texts(args@), i as nat, old(self)@) {
                Step::Next(j, st) => r == Ok::<usize, Result<Action, String>>(j as usize) && i < j
                    <= args@.len() && final(self)@ == st,
                Step::Stop(p) => r matches Err(o) && outcome_matches(o, p),
            },
    {
        let ghost all = texts(args@);
        let n = args.len();
        assert(all[i as int] == args@[i as int]@);
        let (flag, inline) = split_flag_exec(&args[i]);
        let f = flag.as_str();
        if same_text(f, "-h") || same_text(f, "--help") {
            return Err(Ok(Action::Help));
        }
        if same_text(f, "-V") || same_text(f, "--version") {
            return Err(Ok(Action::Version));
        }
        if same_text(f, "--simple") {
            self.simple = true;
            return Ok(i + 1);
        }
        if same_text(f, "--answers") {
            self.answers = true;
            return Ok(i + 1);
        }
        if takes_value_exec(f) {
            let (raw, k) = match inline {
                Some(v) => (v, i + 1),
                None => {
                    if i + 1 < n {
                        assert(all[i + 1] == args@[i + 1]@);
                        (args[i + 1].clone(), i + 2)
                    } else {
                        let mut e = owned(f);
                        e.append(" needs a value");
                        return Err(Err(e));
                    }
                },
            };
            return self.apply_value(f, raw, k);
        }
        let q = debug_quoted(f);
        Err(
            Err(
                quoted_message(
                    "unrecognized argument ",
                    q.as_str(),
                    "\n\nRun `mathgen --help` for usage.",
                ),
            ),
        )
    }
}

fn number_error_text(flag: &str, raw: &str) -> (e: String)
    ensures
        e@ == number_error(flag@, raw@),
{
    let mut before = owned(flag);
    before.append(" expects a number, got ");
    let q = debug_quoted(raw);
    proof {
        reveal_strlit("");
    }
    quoted_message(before.as_str(), q.as_str(), "")
}

fn takes_value_exec(f: &str) -> (b: bool)
    ensures
        b == takes_value(f@),
{
    same_text(f, "-n") || same_text(f, "--count") || same_text(f, "-o") || same_text(f, "--output")
        || same_text(f, "--ops") || same_text(f, "--min") || same_text(f, "--max") || same_text(
        f,
        "--cols",
    ) || same_text(f, "--rows") || same_text(f, "--font-size") || same_text(f, "--paper")
        || same_text(f, "--title") || same_text(f, "--subtitle") || same_text(f, "--seed")
}

fn split_flag_exec(arg: &String) -> (r: (String, Option<String>))
    ensures
        ({
            let (f, v) = split_flag(arg@);
            &&& r.0@ == f
            &&& match r.1 {
                Some(s) => v == Some(s@),
                None => v is None,
            }
        }),
{
    let v = chars_of(arg.as_str());
    let n = v.len();
    match find_char(&v, '=') {
        Some(p) => {
            if p >= 2 && v[0] == '-' && v[1] == '-' {
                let f = string_of(&v, 0, p);
                let rest = string_of(&v, p + 1, n);
                assert(v@.subrange(0, p as int) == v@.take(p as int));
                assert(v@.subrange(p + 1, n as int) == v@.skip(p + 1int));
                (f, Some(rest))
            } else {
                (arg.clone(), None)
            }
        },
        None => (arg.clone(), None),
    }
}

/// The pieces of `s` between commas.
fn split_commas_exec(s: &str) -> (parts: Vec<String>)
    ensures
        texts(parts@) == split_commas(s@),
{
    broadcast use vstd::string::group_string_axioms;

    let mut parts: Vec<String> = Vec::new();
    let mut cur = String::new();
    assert(s@.take(0) =~= Seq::<char>::empty());
    assert(texts(parts@).push(cur@) =~= split_commas(s@.take(0)));
    for c in it: s.chars()
        invariant
            it.seq() == s@,
            texts(parts@).push(cur@) == split_commas(s@.take(it.index())),
    {
        let ghost i = it.index();
        let ghost prev = split_commas(s@.take(i));
        assert(s@.take(i + 1).drop_last() == s@.take(i));
        assert(s@.take(i + 1).last() == c);
        if c == ',' {
            parts.push(cur);
            cur = String::new();
            assert(texts(parts@) == prev);
        } else {
            push_char(&mut cur, c);
            assert(texts(parts@) == prev.drop_last());
        }
    }
    assert(s@.take(s@.len() as int) == s@);
    parts.push(cur);
    parts
}

fn contains_op(ops: &Vec<Op>, op: Op) -> (b: bool)
    ensures
        b == ops@.contains(op),
{
    for i in 0..ops.len()
        invariant
            forall|j: int| 0 <= j < i ==> ops@[j] != op,
    {
        if ops[i] == op {
            assert(ops@[i as int] == op);
            return true;
        }
    }
    false
}

/// The operations the pieces name, or the error for the first that names none.
fn ops_from_exec(parts: &Vec<String>) -> (r: Result<Vec<Op>, String>)
    ensures
        match ops_from(texts(parts@)) {
            Ok(ops) => r matches Ok(v) && v@ == ops,
            Err(m) => r matches Err(e) && e@ == m,
        },
{
    let ghost all = texts(parts@);
    let mut ops: Vec<Op> = Vec::new();
    for k in 0..parts.len()
        invariant
            all == texts(parts@),
            ops_from(all.take(k as int)) == Ok::<Seq<Op>, Seq<char>>(ops@),
    {
        let part = parts[k].as_str();
        assert(all.take(k + 1).drop_last() == all.take(k as int));
        assert(all.take(k + 1).last() == part@);
        let t = lowered_trim(part);
        if t.len() != 0 {
            match Op::parse(part) {
                None => {
                    let q = debug_quoted(part);
                    let e = quoted_message(
                        "unknown operation ",
                        q.as_str(),
                        " (choose from add, sub, mul)",
                    );
                    proof {
                        lemma_ops_from_error(all, k as int);
                    }
                    return Err(e);
                },
                Some(op) => {
                    if !contains_op(&ops, op) {
                        ops.push(op);
                    }
                },
            }
        }
    }
    assert(all.take(parts@.len() as int) == all);
    Ok(ops)
}

/// An error at a piece is the error of the whole list.
proof fn lemma_ops_from_error(parts: Seq<Seq<char>>, k: int)
    requires
        0 <= k < parts.len(),
        ops_from(parts.take(k + 1)) is Err,
    ensures
        ops_from(parts) == ops_from(parts.take(k + 1)),
    decreases parts.len() - k,
{
    if k + 1 < parts.len() {
        assert(parts.drop_last().take(k + 1) == parts.take(k + 1));
        lemma_ops_from_error(parts.drop_last(), k);
    } else {
        assert(parts.take(k + 1) == parts);
    }
}

/// Read the arguments (the program's name not among them).
pub fn parse(args: Vec<String>) -> (r: Result<Action, String>)
    ensures
        outcome_matches(r, parsed(texts(args@))),
{
    let ghost all = texts(args@);
    let mut cfg = Config::default();
    let mut i: usize = 0;
    while i < args.len()
        invariant
            all == texts(args@),
            i <= args@.len(),
            parsed(all) == parse_from(all, i as nat, cfg@),
        decreases args@.len() - i,
    {
        match cfg.step(&args, i) {
            Ok(j) => {
                i = j;
            },
            Err(o) => {
                return o;
            },
        }
    }
    cfg.finish()
}

/// `s` with its next position moved on by `d`.
pub open spec fn shifted(s: Step, d: nat) -> Step {
    match s {
        Step::Next(j, st) => Step::Next(j + d, st),
        Step::Stop(p) => Step::Stop(p),
    }
}

proof fn lemma_apply_value_shift(flag: Seq<char>, raw: Seq<char>, k: nat, st: Settings, d: nat)
    ensures
        apply_value(flag, raw, k + d, st) == shifted(apply_value(flag, raw, k, st), d),
{
}

proof fn lemma_step_shift(p: Seq<Seq<char>>, rest: Seq<Seq<char>>, i: nat, st: Settings)
    requires
        i < rest.len(),
    ensures
        step(p + rest, p.len() + i, st) == shifted(step(rest, i, st), p.len()),
{
    let all = p + rest;
    assert(all[(p.len() + i) as int] == rest[i as int]);
    let (flag, inline) = split_flag(rest[i as int]);
    if i + 1 < rest.len() {
        assert(all[(p.len() + i + 1) as int] == rest[(i + 1) as int]);
    }
    match take_value(inline, rest, i + 1) {
        Some((raw, k)) => {
            lemma_apply_value_shift(flag, raw, k, st, p.len());
        },
        None => {},
    }
}

proof fn lemma_parse_shift(p: Seq<Seq<char>>, rest: Seq<Seq<char>>, i: nat, st: Settings)
    ensures
        parse_from(p + rest, p.len() + i, st) == parse_from(rest, i, st),
    decreases rest.len() - i,
{
    if i < rest.len() {
        lemma_step_shift(p, rest, i, st);
        match step(rest, i, st) {
            Step::Next(j, st2) => {
                lemma_parse_shift(p, rest, j, st2);
            },
            Step::Stop(_) => {},
        }
    }
}

/// A long flag that takes a value reads the same whether the value follows
/// as the next argument or is joined to it with `=`.
pub proof fn lemma_both_spellings(
    flag: Seq<char>,
    value: Seq<char>,
    rest: Seq<Seq<char>>,
    st: Settings,
)
    requires
        takes_value(flag),
        flag.len() >= 2,
        flag[0] == '-',
        flag[1] == '-',
        !flag.contains('='),
    ensures
        parse_from(seq![flag, value] + rest, 0, st) == parse_from(
            seq![flag + "="@ + value] + rest,
            0,
            st,
        ),
{
    let split = seq![flag, value] + rest;
    let joined_arg = flag + "="@ + value;
    let joined = seq![joined_arg] + rest;
    reveal_strlit("=");
    assert(("="@ + value)[0] == '=');
    assert(joined_arg[0] == '-' && joined_arg[1] == '-');
    lemma_first_index_absent(flag, '=');
    assert(joined_arg == flag + ("="@ + value));
    lemma_first_index_after(flag, "="@ + value, '=');
    assert(joined_arg.take(flag.len() as int) == flag);
    assert(joined_arg.skip(flag.len() + 1int) == value);
    assert(split_flag(joined_arg) == (flag, Some(value)));
    assert(split_flag(flag) == (flag, None::<Seq<char>>));
    assert(split[0] == flag);
    assert(split[1] == value);
    assert(joined[0] == joined_arg);
    let a = apply_value(flag, value, 2, st);
    let b = apply_value(flag, value, 1, st);
    lemma_apply_value_shift(flag, value, 1, st, 1);
    lemma_value_flag_is_no_switch(flag);
    assert(step(split, 0, st) == a);
    assert(step(joined, 0, st) == b);
    match b {
        Step::Next(j, st2) => {
            lemma_parse_shift(seq![flag, value], rest, (j - 1) as nat, st2);
            lemma_parse_shift(seq![joined_arg], rest, (j - 1) as nat, st2);
        },
        Step::Stop(_) => {},
    }
}

/// Length and a telling character (the second for short flags, the third
/// for long ones) of a flag.
spec fn flag_key(s: Seq<char>) -> (nat, char) {
    if s.len() < 3 {
        (s.len(), s[1])
    } else {
        (s.len(), s[2])
    }
}

/// The keys of the flags that take a value.
spec fn value_flag_key(k: (nat, char)) -> bool {
    ||| k == (2nat, 'n')
    ||| k == (2nat, 'o')
    ||| k == (7nat, 'c')
    ||| k == (8nat, 'o')
    ||| k == (5nat, 'o')
    ||| k == (5nat, 'm')
    ||| k == (6nat, 'c')
    ||| k == (6nat, 'r')
    ||| k == (11nat, 'f')
    ||| k == (7nat, 'p')
    ||| k == (7nat, 't')
    ||| k == (10nat, 's')
    ||| k == (6nat, 's')
}

/// A flag that takes a value is none of the flags that take none.
proof fn lemma_value_flag_is_no_switch(flag: Seq<char>)
    requires
        takes_value(flag),
    ensures
        flag != "-h"@,
        flag != "--help"@,
        flag != "-V"@,
        flag != "--version"@,
        flag != "--simple"@,
        flag != "--answers"@,
{
    broadcast use vstd::string::group_string_axioms;

    if flag == "-n"@ {
        reveal_strlit("-n");
    } else if flag == "--count"@ {
        reveal_strlit("--count");
    } else if flag == "-o"@ {
        reveal_strlit("-o");
    } else if flag == "--output"@ {
        reveal_strlit("--output");
    } else if flag == "--ops"@ {
        reveal_strlit("--ops");
    } else if flag == "--min"@ {
        reveal_strlit("--min");
    } else if flag == "--max"@ {
        reveal_strlit("--max");
    } else if flag == "--cols"@ {
        reveal_strlit("--cols");
    } else if flag == "--rows"@ {
        reveal_strlit("--rows");
    } else if flag == "--font-size"@ {
        reveal_strlit("--font-size");
    } else if flag == "--paper"@ {
        reveal_strlit("--paper");
    } else if flag == "--title"@ {
        reveal_strlit("--title");
    } else if flag == "--subtitle"@ {
        reveal_strlit("--subtitle");
    } else {
        reveal_strlit("--seed");
    }
    assert(value_flag_key(flag_key(flag)));
    reveal_strlit("-h");
    reveal_strlit("--help");
    reveal_strlit("-V");
    reveal_strlit("--version");
    reveal_strlit("--simple");
    reveal_strlit("--answers");
    assert(!value_flag_key(flag_key("-h"@)));
    assert(!value_flag_key(flag_key("--help"@)));
    assert(!value_flag_key(flag_key("-V"@)));
    assert(!value_flag_key(flag_key("--version"@)));
    assert(!value_flag_key(flag_key("--simple"@)));
    assert(!value_flag_key(flag_key("--answers"@)));
}

proof fn lemma_first_index_absent(s: Seq<char>, c: char)
    requires
        !s.contains(c),
    ensures
        first_index(s, c) is None,
    decreases s.len(),
{
    if s.len() > 0 {
        assert(s[0] != c);
        assert forall|j: int| 0 <= j < s.drop_first().len() implies s.drop_first()[j] != c by {
            assert(s.drop_first()[j] == s[j + 1]);
        }
        lemma_first_index_absent(s.drop_first(), c);
    }
}

proof fn lemma_first_index_after(s: Seq<char>, t: Seq<char>, c: char)
    requires
        !s.contains(c),
        t.len() > 0,
        t[0] == c,
    ensures
        first_index(s + t, c) == Some(s.len()),
    decreases s.len(),
{
    if s.len() > 0 {
        assert(s[0] != c);
        assert((s + t).drop_first() == s.drop_first() + t);
        assert forall|j: int| 0 <= j < s.drop_first().len() implies s.drop_first()[j] != c by {
            assert(s.drop_first()[j] == s[j + 1]);
        }
        lemma_first_index_after(s.drop_first(), t, c);
    } else {
        assert(s + t == t);
    }
}

/// `xs` is a run of whole flag groups: each flag that takes a value and has
/// none after `=` is followed by its value within `xs`.
pub open spec fn whole_groups(xs: Seq<Seq<char>>) -> bool
    decreases xs.len(),
{
    if xs.len() == 0 {
        true
    } else {
        let (flag, inline) = split_flag(xs[0]);
        if takes_value(flag) && inline is None {
            xs.len() >= 2 && whole_groups(xs.skip(2))
        } else {
            whole_groups(xs.skip(1))
        }
    }
}

/// The first step only reads the group it starts.
proof fn lemma_apply_value_next(flag: Seq<char>, raw: Seq<char>, k: nat, st: Settings)
    ensures
        apply_value(flag, raw, k, st) matches Step::Next(j, _) ==> j == k,
{
}

proof fn lemma_step_reads_group(xs: Seq<Seq<char>>, r1: Seq<Seq<char>>, r2: Seq<Seq<char>>, st: Settings)
    requires
        xs.len() > 0,
        whole_groups(xs),
    ensures
        step(xs + r1, 0, st) == step(xs + r2, 0, st),
{
    assert((xs + r1)[0] == xs[0]);
    assert((xs + r2)[0] == xs[0]);
    if xs.len() >= 2 {
        assert((xs + r1)[1] == xs[1]);
        assert((xs + r2)[1] == xs[1]);
    }
}

/// Whole flag groups in front of two argument lists that read the same from
/// any settings keep them reading the same.
proof fn lemma_same_after_groups(
    xs: Seq<Seq<char>>,
    r1: Seq<Seq<char>>,
    r2: Seq<Seq<char>>,
    st: Settings,
)
    requires
        whole_groups(xs),
        forall|t: Settings| #[trigger] parse_from(r1, 0, t) == parse_from(r2, 0, t),
    ensures
        parse_from(xs + r1, 0, st) == parse_from(xs + r2, 0, st),
    decreases xs.len(),
{
    if xs.len() == 0 {
        assert(xs + r1 == r1);
        assert(xs + r2 == r2);
    } else {
        lemma_step_reads_group(xs, r1, r2, st);
        match step(xs + r1, 0, st) {
            Step::Stop(_) => {},
            Step::Next(j, st2) => {
                let (flag, inline) = split_flag(xs[0]);
                assert((xs + r1)[0] == xs[0]);
                if takes_value(flag) {
                    lemma_value_flag_is_no_switch(flag);
                    match take_value(inline, xs + r1, 1) {
                        Some((raw, k)) => {
                            lemma_apply_value_next(flag, raw, k, st);
                        },
                        None => {},
                    }
                }
                assert(if takes_value(flag) && inline is None {
                    j == 2
                } else {
                    j == 1
                });
                assert(j <= xs.len());
                let head = xs.take(j as int);
                let tail = xs.skip(j as int);
                assert(xs + r1 == head + (tail + r1));
                assert(xs + r2 == head + (tail + r2));
                lemma_parse_shift(head, tail + r1, 0, st2);
                lemma_parse_shift(head, tail + r2, 0, st2);
                lemma_same_after_groups(tail, r1, r2, st2);
            },
        }
    }
}

/// After any run of whole flag groups, a long flag that takes a value reads
/// the same whether its value follows as the next argument or is joined to
/// it with `=`.
pub proof fn lemma_both_spellings_anywhere(
    xs: Seq<Seq<char>>,
    flag: Seq<char>,
    value: Seq<char>,
    rest: Seq<Seq<char>>,
    st: Settings,
)
    requires
        whole_groups(xs),
        takes_value(flag),
        flag.len() >= 2,
        flag[0] == '-',
        flag[1] == '-',
        !flag.contains('='),
    ensures
        parse_from(xs + (seq![flag, value] + rest), 0, st) == parse_from(
            xs + (seq![flag + "="@ + value] + rest),
            0,
            st,
        ),
{
    let split = seq![flag, value] + rest;
    let joined = seq![flag + "="@ + value] + rest;
    assert forall|t: Settings| #[trigger]
        parse_from(split, 0, t) == parse_from(joined, 0, t) by {
        lemma_both_spellings(flag, value, rest, t);
    }
    lemma_same_after_groups(xs, split, joined, st);
}

/// A run of whole flag groups only hands on settings: where arguments after
/// it end in a run, that run is what those arguments give from some settings.
proof fn lemma_run_after_groups(xs: Seq<Seq<char>>, r: Seq<Seq<char>>, st: Settings)
    requires
        whole_groups(xs),
    ensures
        parse_from(xs + r, 0, st) is Run ==> exists|t: Settings|
            parse_from(xs + r, 0, st) == #[trigger] parse_from(r, 0, t),
    decreases xs.len(),
{
    if xs.len() == 0 {
        assert(xs + r == r);
    } else {
        let (flag, inline) = split_flag(xs[0]);
        assert((xs + r)[0] == xs[0]);
        if xs.len() >= 2 {
            assert((xs + r)[1] == xs[1]);
        }
        match step(xs + r, 0, st) {
            Step::Stop(_) => {
                if takes_value(flag) {
                    lemma_value_flag_is_no_switch(flag);
                }
            },
            Step::Next(j, st2) => {
                if takes_value(flag) {
                    lemma_value_flag_is_no_switch(flag);
                    match take_value(inline, xs + r, 1) {
                        Some((raw, k)) => {
                            lemma_apply_value_next(flag, raw, k, st);
                        },
                        None => {},
                    }
                }
                assert(j <= xs.len());
                let head = xs.take(j as int);
                let tail = xs.skip(j as int);
                assert(xs + r == head + (tail + r));
                lemma_parse_shift(head, tail + r, 0, st2);
                lemma_run_after_groups(tail, r, st2);
            },
        }
    }
}

/// What a run says of the value `v` given last to the flag `flag`: the
/// field that the flag names holds `v`, read as that field is read.
pub open spec fn value_kept(flag: Seq<char>, v: Seq<char>, st: Settings) -> bool {
    if flag == "-n"@ || flag == "--count"@ {
        parse_unsigned(v, usize::MAX as nat) == Some(st.count as nat) && st.count > 0
    } else if flag == "-o"@ || flag == "--output"@ {
        st.output == v
    } else if flag == "--ops"@ {
        ops_from(split_commas(v)) == Ok::<Seq<Op>, Seq<char>>(st.ops) && st.ops.len() > 0
    } else if flag == "--min"@ {
        parse_i64(v) == Some(st.lo as int)
    } else if flag == "--max"@ {
        parse_i64(v) == Some(st.hi as int)
    } else if flag == "--cols"@ {
        parse_unsigned(v, usize::MAX as nat) == Some(st.cols as nat)
    } else if flag == "--rows"@ {
        parse_unsigned(v, usize::MAX as nat) == Some(st.rows as nat)
    } else if flag == "--font-size"@ {
        st.font_size == v
    } else if flag == "--paper"@ {
        (lower(v) == "letter"@ && st.paper == (61200i64, 79200i64)) || (lower(v) == "a4"@
            && st.paper == (59528i64, 84189i64))
    } else if flag == "--title"@ {
        st.title == v
    } else if flag == "--subtitle"@ {
        st.subtitle == Some(v)
    } else {
        st.seed matches Some(x) && parse_unsigned(v, u64::MAX as nat) == Some(x as nat)
    }
}

proof fn lemma_flag_texts()
    ensures
        "-n"@.len() == 2 && "-n"@[1] == 'n',
        "-o"@.len() == 2 && "-o"@[1] == 'o',
        "--count"@.len() == 7 && "--count"@[2] == 'c',
        "--output"@.len() == 8 && "--output"@[2] == 'o',
        "--ops"@.len() == 5 && "--ops"@[2] == 'o',
        "--min"@.len() == 5 && "--min"@[2] == 'm' && "--min"@[3] == 'i',
        "--max"@.len() == 5 && "--max"@[2] == 'm' && "--max"@[3] == 'a',
        "--cols"@.len() == 6 && "--cols"@[2] == 'c',
        "--rows"@.len() == 6 && "--rows"@[2] == 'r',
        "--font-size"@.len() == 11,
        "--paper"@.len() == 7 && "--paper"@[2] == 'p',
        "--title"@.len() == 7 && "--title"@[2] == 't',
        "--subtitle"@.len() == 10,
        "--seed"@.len() == 6 && "--seed"@[2] == 's',
        !"-n"@.contains('=') && !"-o"@.contains('=') && !"--count"@.contains('=')
            && !"--output"@.contains('=') && !"--ops"@.contains('=') && !"--min"@.contains('=')
            && !"--max"@.contains('=') && !"--cols"@.contains('=') && !"--rows"@.contains('=')
            && !"--font-size"@.contains('=') && !"--paper"@.contains('=')
            && !"--title"@.contains('=') && !"--subtitle"@.contains('=')
            && !"--seed"@.contains('='),
{
    reveal_strlit("-n");
    reveal_strlit("-o");
    reveal_strlit("--count");
    reveal_strlit("--output");
    reveal_strlit("--ops");
    reveal_strlit("--min");
    reveal_strlit("--max");
    reveal_strlit("--cols");
    reveal_strlit("--rows");
    reveal_strlit("--font-size");
    reveal_strlit("--paper");
    reveal_strlit("--title");
    reveal_strlit("--subtitle");
    reveal_strlit("--seed");
}

/// A flag that takes a value, with its value, as the last arguments.
proof fn lemma_value_last(flag: Seq<char>, v: Seq<char>, t: Settings)
    requires
        takes_value(flag),
    ensures
        parse_from(seq![flag, v], 0, t) matches Parsed::Run(st) ==> value_kept(flag, v, st),
{
    lemma_flag_texts();
    let args = seq![flag, v];
    assert(!flag.contains('='));
    lemma_first_index_absent(flag, '=');
    assert(split_flag(flag) == (flag, None::<Seq<char>>));
    assert(args[0] == flag);
    assert(args[1] == v);
    lemma_value_flag_is_no_switch(flag);
    assert(take_value(None, args, 1) == Some((v, 2nat)));
    assert(step(args, 0, t) == apply_value(flag, v, 2, t));
    lemma_apply_value_next(flag, v, 2, t);
    match apply_value(flag, v, 2, t) {
        Step::Next(j, t2) => {
            assert(parse_from(args, 2, t2) == finish(t2));
        },
        Step::Stop(_) => {},
    }
}

/// The value given last to a flag is the one kept. After any whole flag
/// groups, a flag that takes a value followed by its value ends in a run only
/// with the field that the flag names set from that value: the count, the
/// bounds, the grid and the seed read as numbers, the operations read from
/// their list, the paper by its name, and the output, type size, title and
/// subtitle as given.
pub proof fn lemma_value_named_last(xs: Seq<Seq<char>>, flag: Seq<char>, v: Seq<char>)
    requires
        whole_groups(xs),
        takes_value(flag),
    ensures
        parsed(xs + seq![flag, v]) matches Parsed::Run(st) ==> value_kept(flag, v, st),
{
    let r = seq![flag, v];
    lemma_run_after_groups(xs, r, defaults());
    if parse_from(xs + r, 0, defaults()) is Run {
        let t = choose|t: Settings| parse_from(xs + r, 0, defaults()) == #[trigger] parse_from(
            r,
            0,
            t,
        );
        lemma_value_last(flag, v, t);
    }
}

/// The paper named last sets the page size. After any whole flag groups,
/// `--paper letter` (in any ASCII case, in either spelling) ends in a run
/// only on US Letter, 612 by 792 points, and `--paper a4` only on A4, 595.28
/// by 841.89 points (sizes in hundredths of a point). With no arguments the
/// page is US Letter.
pub proof fn lemma_paper_named_last(xs: Seq<Seq<char>>, v: Seq<char>)
    requires
        whole_groups(xs),
    ensures
        lower(v) == "letter"@ ==> (parsed(xs + seq!["--paper"@, v]) matches Parsed::Run(st)
            ==> st.paper == (61200i64, 79200i64)),
        lower(v) == "letter"@ ==> (parsed(xs + seq!["--paper"@ + "="@ + v]) matches Parsed::Run(st)
            ==> st.paper == (61200i64, 79200i64)),
        lower(v) == "a4"@ ==> (parsed(xs + seq!["--paper"@, v]) matches Parsed::Run(st)
            ==> st.paper == (59528i64, 84189i64)),
        lower(v) == "a4"@ ==> (parsed(xs + seq!["--paper"@ + "="@ + v]) matches Parsed::Run(st)
            ==> st.paper == (59528i64, 84189i64)),
        parsed(Seq::empty()) matches Parsed::Run(st) ==> st.paper == (61200i64, 79200i64),
{
    let r = seq!["--paper"@, v];
    lemma_flag_texts();
    assert(takes_value("--paper"@));
    lemma_value_named_last(xs, "--paper"@, v);
    reveal_strlit("letter");
    reveal_strlit("a4");
    assert("letter"@.len() == 6 && "a4"@.len() == 2);
    assert("--paper"@ != "-n"@ && "--paper"@ != "--count"@ && "--paper"@ != "-o"@
        && "--paper"@ != "--output"@ && "--paper"@ != "--ops"@ && "--paper"@ != "--min"@
        && "--paper"@ != "--max"@ && "--paper"@ != "--cols"@ && "--paper"@ != "--rows"@
        && "--paper"@ != "--font-size"@);
    reveal_strlit("--paper");
    lemma_both_spellings_anywhere(xs, "--paper"@, v, Seq::empty(), defaults());
    assert(seq!["--paper"@, v] + Seq::<Seq<char>>::empty() == r);
    assert(seq!["--paper"@ + "="@ + v] + Seq::<Seq<char>>::empty() == seq!["--paper"@ + "="@ + v]);
}

proof fn lemma_runs_checked_from(args: Seq<Seq<char>>, i: nat, st: Settings)
    requires
        st.count >= 1,
        st.ops.len() >= 1,
    ensures
        parse_from(args, i, st) matches Parsed::Run(r) ==> r.count >= 1 && r.ops.len() >= 1 && 0
            <= r.lo <= r.hi && r.cols >= 1 && r.rows >= 1 && positive_text(r.font_size),
    decreases args.len() - i,
{
    if i < args.len() {
        match step(args, i, st) {
            Step::Next(j, st2) => {
                let (flag, inline) = split_flag(args[i as int]);
                if takes_value(flag) {
                    lemma_value_flag_is_no_switch(flag);
                    match take_value(inline, args, i + 1) {
                        Some((raw, k)) => {
                            lemma_apply_value_next(flag, raw, k, st);
                        },
                        None => {},
                    }
                }
                lemma_runs_checked_from(args, j, st2);
            },
            Step::Stop(_) => {},
        }
    }
}

/// Every run that the arguments give has passed the checks: at least one
/// problem and one operation, a range with `0 <= min <= max`, a grid of at
/// least one column and one row, and a type size that reads as a finite
/// `f32` above zero.
pub proof fn lemma_runs_are_checked(args: Seq<Seq<char>>)
    ensures
        parsed(args) matches Parsed::Run(st) ==> st.count >= 1 && st.ops.len() >= 1 && 0 <= st.lo
            <= st.hi && st.cols >= 1 && st.rows >= 1 && positive_text(st.font_size),
{
    lemma_runs_checked_from(args, 0, defaults());
}

} // verus!
