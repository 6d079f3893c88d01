//! Problem generation, plus the small PRNG that drives it.

use vstd::prelude::*;

use crate::text::{
    ascii_lower, chars_of, is_white_space, lower, push_signed, signed_decimal, trim, trim_end,
    trim_start,
};

verus! {

#[derive(Copy, Clone, Debug, PartialEq, Eq, Hash, Structural)]
pub enum Op {
    Add,
    Sub,
    Mul,
}

/// The operation named by `s`, ignoring surrounding white space and ASCII case.
pub open spec fn op_named(s: Seq<char>) -> Option<Op> {
    let t = lower(trim(s));
    if t == "add"@ || t == "addition"@ || t == "+"@ {
        Some(Op::Add)
    } else if t == "sub"@ || t == "subtract"@ || t == "subtraction"@ || t == "-"@ {
        Some(Op::Sub)
    } else if t == "mul"@ || t == "multiply"@ || t == "multiplication"@ || t == "x"@ || t
        == "*"@ {
        Some(Op::Mul)
    } else {
        None
    }
}

impl Op {
    /// The symbol printed between the operands.
    pub open spec fn symbol_spec(self) -> Seq<char> {
        match self {
            Op::Add => seq!['+'],
            Op::Sub => seq!['\u{2013}'],
            Op::Mul => seq!['\u{00D7}'],
        }
    }

    pub open spec fn name_spec(self) -> Seq<char> {
        match self {
            Op::Add => "addition"@,
            Op::Sub => "subtraction"@,
            Op::Mul => "multiplication"@,
        }
    }

    pub fn symbol(self) -> (s: &'static str)
        ensures
            s@ == self.symbol_spec(),
    {
        match self {
            Op::Add => {
                proof {
                    reveal_strlit("+");
                }
                "+"
            },
            Op::Sub => {
                proof {
                    reveal_strlit("\u{2013}");
                }
                "\u{2013}"  // en dash reads as a minus in Helvetica

            },
            Op::Mul => {
                proof {
                    reveal_strlit("\u{00D7}");
                }
                "\u{00D7}"
            },
        }
    }

    pub fn name(self) -> (s: &'static str)
        ensures
            s@ == self.name_spec(),
    {
        match self {
            Op::Add => "addition",
            Op::Sub => "subtraction",
            Op::Mul => "multiplication",
        }
    }

    pub fn parse(s: &str) -> (op: Option<Op>)
        ensures
            op == op_named(s@),
    {
        let t = lowered_trim(s);
        if eq_str(&t, "add") || eq_str(&t, "addition") || eq_str(&t, "+") {
            Some(Op::Add)
        } else if eq_str(&t, "sub") || eq_str(&t, "subtract") || eq_str(&t, "subtraction")
            || eq_str(&t, "-") {
            Some(Op::Sub)
        } else if eq_str(&t, "mul") || eq_str(&t, "multiply") || eq_str(&t, "multiplication")
            || eq_str(&t, "x") || eq_str(&t, "*") {
            Some(Op::Mul)
        } else {
            None
        }
    }
}

fn is_white_space_char(c: char) -> (b: bool)
    ensures
        b == is_white_space(c),
{
    ('\u{0009}' <= c && c <= '\u{000D}') || c == ' ' || c == '\u{0085}' || c == '\u{00A0}' || c
        == '\u{1680}' || ('\u{2000}' <= c && c <= '\u{200A}') || c == '\u{2028}' || c
        == '\u{2029}' || c == '\u{202F}' || c == '\u{205F}' || c == '\u{3000}'
}

proof fn lemma_trim_start_skip(s: Seq<char>, i: int)
    requires
        0 <= i <= s.len(),
        forall|j: int| 0 <= j < i ==> is_white_space(#[trigger] s[j]),
    ensures
        trim_start(s) == trim_start(s.skip(i)),
    decreases i,
{
    if i > 0 {
        assert(s.skip(1) == s.drop_first());
        lemma_trim_start_skip(s.drop_first(), i - 1);
        assert(s.drop_first().skip(i - 1) == s.skip(i));
    } else {
        assert(s.skip(0) == s);
    }
}

proof fn lemma_trim_end_take(s: Seq<char>, j: int)
    requires
        0 <= j <= s.len(),
        forall|k: int| j <= k < s.len() ==> is_white_space(#[trigger] s[k]),
    ensures
        trim_end(s) == trim_end(s.take(j)),
    decreases s.len() - j,
{
    if j < s.len() {
        assert(s.drop_last() == s.take(s.len() - 1));
        assert(s.drop_last().take(j) == s.take(j));
        lemma_trim_end_take(s.drop_last(), j);
    } else {
        assert(s.take(j) == s);
    }
}

/// `lower(trim(s@))` as a vector of characters.
pub(crate) fn lowered_trim(s: &str) -> (t: Vec<char>)
    ensures
        t@ == lower(trim(s@)),
{
    let cs = chars_of(s);
    let n = cs.len();
    let mut i: usize = 0;
    while i < n && is_white_space_char(cs[i])
        invariant
            n == cs@.len(),
            i <= n,
            forall|j: int| 0 <= j < i ==> is_white_space(#[trigger] cs@[j]),
        decreases n - i,
    {
        i = i + 1;
    }
    proof {
        lemma_trim_start_skip(cs@, i as int);
        if i < n {
            assert(cs@.skip(i as int)[0] == cs@[i as int]);
        }
        assert(trim_start(cs@.skip(i as int)) == cs@.skip(i as int));
    }
    let ghost mid = cs@.skip(i as int);
    let mut j: usize = n;
    while j > i && is_white_space_char(cs[j - 1])
        invariant
            n == cs@.len(),
            i <= j <= n,
            mid == cs@.skip(i as int),
            forall|k: int| j <= k < n ==> is_white_space(#[trigger] cs@[k]),
        decreases j,
    {
        j = j - 1;
    }
    proof {
        assert forall|k: int| j - i <= k < mid.len() implies is_white_space(#[trigger] mid[k]) by {
            assert(mid[k] == cs@[k + i]);
        }
        lemma_trim_end_take(mid, j - i);
        let body = mid.take(j - i);
        if j > i {
            assert(body.last() == cs@[j - 1]);
        }
        assert(trim_end(body) == body);
    }
    let mut t: Vec<char> = Vec::new();
    let mut k: usize = i;
    while k < j
        invariant
            n == cs@.len(),
            i <= k <= j <= n,
            t@ == lower(cs@.subrange(i as int, k as int)),
        decreases j - k,
    {
        let c = cs[k];
        let l = if 'A' <= c && c <= 'Z' {
            char_from_u32_ascii((c as u32) + 32)
        } else {
            c
        };
        t.push(l);
        k = k + 1;
        assert(cs@.subrange(i as int, k as int) == cs@.subrange(i as int, k - 1).push(c));
    }
    assert(cs@.skip(i as int).take(j - i) == cs@.subrange(i as int, j as int));
    t
}

/// The character with code `u`, for a code in the ASCII letters.
fn char_from_u32_ascii(u: u32) -> (c: char)
    requires
        97 <= u <= 122,
    ensures
        c == u as char,
{
    let b: u8 = u as u8;
    b as char
}

/// Whether the characters in `t` spell `lit`.
pub(crate) fn eq_str(t: &Vec<char>, lit: &str) -> (b: bool)
    ensures
        b == (t@ == lit@),
{
    let n = lit.unicode_len();
    if t.len() != n {
        return false;
    }
    for i in 0..n
        invariant
            n == lit@.len(),
            t@.len() == n,
            forall|j: int| 0 <= j < i ==> t@[j] == lit@[j],
    {
        if t[i] != lit.get_char(i) {
            return false;
        }
    }
    assert(t@ == lit@);
    true
}


/// Remainder of `a` by `d` rounded toward zero, as Rust's `%` computes it.
pub open spec fn trunc_rem(a: int, d: int) -> int {
    if a >= 0 {
        a % d
    } else {
        -((-a) % d)
    }
}

/// Quotient of `a` by `d` rounded toward zero, as Rust's `/` computes it.
pub open spec fn trunc_div(a: int, d: int) -> int {
    if a >= 0 {
        a / d
    } else {
        -((-a) / d)
    }
}

/// Adding `a` and `b` in columns would carry out of the ones column, or the
/// tens would carry into a third digit.
pub open spec fn carries(a: int, b: int) -> bool {
    trunc_rem(a, 10) + trunc_rem(b, 10) > 9 || trunc_div(a, 10) + trunc_div(b, 10) > 9
}

pub open spec fn abs(a: int) -> int {
    if a < 0 {
        -a
    } else {
        a
    }
}

/// Subtracting `b` from `a` in columns would borrow in some column: some
/// digit of `a` is smaller than the digit of `b` in the same place.
pub open spec fn borrows(a: int, b: int) -> bool
    decreases abs(a) + abs(b),
{
    if a == 0 && b == 0 {
        false
    } else {
        trunc_rem(a, 10) < trunc_rem(b, 10) || borrows(trunc_div(a, 10), trunc_div(b, 10))
    }
}

/// Digit `k` of `n`, counted from the ones (digit 0), as Rust's `/` and `%`
/// give it; negative for negative `n`.
pub open spec fn digit(n: int, k: nat) -> int
    decreases k,
{
    if k == 0 {
        trunc_rem(n, 10)
    } else {
        digit(trunc_div(n, 10), (k - 1) as nat)
    }
}

/// Whether subtracting `b` from `a` in columns borrows anywhere.
fn borrows_exec(a: i64, b: i64) -> (r: bool)
    ensures
        r == borrows(a as int, b as int),
{
    let mut x = a;
    let mut y = b;
    while x != 0 || y != 0
        invariant
            borrows(a as int, b as int) == borrows(x as int, y as int),
        decreases abs(x as int) + abs(y as int),
    {
        if x % 10 < y % 10 {
            return true;
        }
        x = x / 10;
        y = y / 10;
    }
    false
}

#[derive(Copy, Clone, Debug, PartialEq, Eq, Hash, Structural)]
pub struct Problem {
    pub a: i64,
    pub b: i64,
    pub op: Op,
}

impl Problem {
    pub open spec fn answer_spec(self) -> int {
        match self.op {
            Op::Add => self.a + self.b,
            Op::Sub => self.a - self.b,
            Op::Mul => self.a * self.b,
        }
    }

    /// The answer fits in an `i64`.
    pub open spec fn answer_fits(self) -> bool {
        i64::MIN <= self.answer_spec() <= i64::MAX
    }

    /// The one-line form `a op b = answer`.
    pub open spec fn inline_spec(self) -> Seq<char> {
        signed_decimal(self.a as int) + " "@ + self.op.symbol_spec() + " "@ + signed_decimal(
            self.b as int,
        ) + " = "@ + signed_decimal(self.answer_spec())
    }

    pub fn answer(&self) -> (r: i64)
        requires
            self.answer_fits(),
        ensures
            r == self.answer_spec(),
    {
        match self.op {
            Op::Add => self.a + self.b,
            Op::Sub => self.a - self.b,
            Op::Mul => self.a * self.b,
        }
    }

    /// One-line form used by the answer key.
    pub fn inline(&self) -> (s: String)
        requires
            self.answer_fits(),
        ensures
            s@ == self.inline_spec(),
    {
        let mut s = String::new();
        push_signed(&mut s, self.a);
        s.append(" ");
        s.append(self.op.symbol());
        s.append(" ");
        push_signed(&mut s, self.b);
        s.append(" = ");
        push_signed(&mut s, self.answer());
        s
    }
}

pub const GAMMA: u64 = 0x9E37_79B9_7F4A_7C15;

pub const MIX1: u64 = 0xBF58_476D_1CE4_E5B9;

pub const MIX2: u64 = 0x94D0_49BB_1331_11EB;

/// The SplitMix64 state step.
pub open spec fn advance(s: u64) -> u64 {
    s.wrapping_add(GAMMA)
}

/// The SplitMix64 output function applied to a stepped state.
pub open spec fn mix(z: u64) -> u64 {
    let z1 = (z ^ (z >> 30u64)).wrapping_mul(MIX1);
    let z2 = (z1 ^ (z1 >> 27u64)).wrapping_mul(MIX2);
    z2 ^ (z2 >> 31u64)
}

/// One draw in `lo..=hi` from state `s`: the value and the next state.
pub open spec fn draw(lo: i64, hi: i64, s: u64) -> (i64, u64) {
    let s1 = advance(s);
    let span = (hi - lo + 1) as u64;
    ((lo + (mix(s1) % span)) as i64, s1)
}

/// SplitMix64: tiny, seeds cleanly from any value, plenty for worksheets.
pub struct Rng {
    state: u64,
}

impl View for Rng {
    type V = u64;

    closed spec fn view(&self) -> u64 {
        self.state
    }
}

impl Rng {
    pub fn new(seed: u64) -> (r: Rng)
        ensures
            r@ == seed,
    {
        Rng { state: seed }
    }

    fn next_u64(&mut self) -> (r: u64)
        ensures
            final(self)@ == advance(old(self)@),
            r == mix(final(self)@),
    {
        self.state = self.state.wrapping_add(GAMMA);
        let mut z = self.state;
        z = (z ^ (z >> 30)).wrapping_mul(MIX1);
        z = (z ^ (z >> 27)).wrapping_mul(MIX2);
        z ^ (z >> 31)
    }

    /// Uniform-ish integer in `lo..=hi`.
    pub fn range(&mut self, lo: i64, hi: i64) -> (r: i64)
        requires
            lo <= hi,
            hi - lo < i64::MAX,
        ensures
            (r, final(self)@) == draw(lo, hi, old(self)@),
            lo <= r <= hi,
    {
        let span = (hi - lo + 1) as u64;
        lo + (self.next_u64() % span) as i64
    }
}

/// What one pair of draws `(a, b)` yields for `op`: a problem, or nothing when
/// the pair breaks a constraint.
pub open spec fn attempt(op: Op, simple: bool, a: i64, b: i64) -> Option<Problem> {
    match op {
        Op::Add => if simple && carries(a as int, b as int) {
            None
        } else {
            Some(Problem { a, b, op })
        },
        Op::Sub => {
            let (x, y) = if a < b {
                (b, a)
            } else {
                (a, b)
            };
            if x == y || (simple && borrows(x as int, y as int)) {
                None
            } else {
                Some(Problem { a: x, b: y, op })
            }
        },
        Op::Mul => Some(Problem { a, b, op }),
    }
}

/// Up to `tries` attempts from state `s`: the first problem that fits, or
/// nothing, and the state after the last draw.
pub open spec fn make_spec(op: Op, lo: i64, hi: i64, simple: bool, s: u64, tries: nat) -> (
    Option<Problem>,
    u64,
)
    decreases tries,
{
    if tries == 0 {
        (None, s)
    } else {
        let (a, s1) = draw(lo, hi, s);
        let (b, s2) = draw(lo, hi, s1);
        match attempt(op, simple, a, b) {
            Some(p) => (Some(p), s2),
            None => make_spec(op, lo, hi, simple, s2, (tries - 1) as nat),
        }
    }
}

/// How many draws `make` tries before giving up.
pub const MAKE_TRIES: u32 = 4000;

/// How many problems `generate` draws in search of one not yet used.
pub const FRESH_TRIES: u32 = 200;

/// What the pair `(a, b)` yields for `op`.
fn attempt_exec(op: Op, simple: bool, a: i64, b: i64) -> (r: Option<Problem>)
    ensures
        r == attempt(op, simple, a, b),
{
    match op {
        Op::Add => {
            if !(simple && (a % 10 + b % 10 > 9 || a / 10 + b / 10 > 9)) {
                Some(Problem { a, b, op })
            } else {
                // would require carrying
                None
            }
        },
        Op::Sub => {
            let (x, y) = if a < b {
                (b, a)
            } else {
                (a, b)
            };
            // answers of 0 are a dull worksheet; borrowing is not simple
            if !(x == y || (simple && borrows_exec(x, y))) {
                Some(Problem { a: x, b: y, op })
            } else {
                None
            }
        },
        Op::Mul => Some(Problem { a, b, op }),
    }
}

/// Draw one problem, retrying until it satisfies the constraints.
fn make(op: Op, lo: i64, hi: i64, simple: bool, rng: &mut Rng) -> (res: Option<Problem>)
    requires
        lo <= hi,
        hi - lo < i64::MAX,
    ensures
        (res, final(rng)@) == make_spec(op, lo, hi, simple, old(rng)@, MAKE_TRIES as nat),
{
    let mut t: u32 = 0;
    while t < MAKE_TRIES
        invariant
            t <= MAKE_TRIES,
            lo <= hi,
            hi - lo < i64::MAX,
            make_spec(op, lo, hi, simple, old(rng)@, MAKE_TRIES as nat) == make_spec(
                op,
                lo,
                hi,
                simple,
                rng@,
                (MAKE_TRIES - t) as nat,
            ),
        decreases MAKE_TRIES - t,
    {
        let a = rng.range(lo, hi);
        let b = rng.range(lo, hi);
        if let Some(p) = attempt_exec(op, simple, a, b) {
            return Some(p);
        }
        t = t + 1;
    }
    None
}


/// The first problem not in `seen` that a pair of operands in `lo..=hi`
/// yields for `op`, pairs taken in order from `(a, b)` on: `a` ascending, and
/// for each `a`, `b` ascending.
pub open spec fn scan_fresh(
    op: Op,
    lo: i64,
    hi: i64,
    simple: bool,
    seen: Seq<Problem>,
    a: int,
    b: int,
) -> Option<Problem>
    decreases hi - a + 1, hi - b + 1,
{
    if a > hi {
        None
    } else if b > hi {
        scan_fresh(op, lo, hi, simple, seen, a + 1, lo as int)
    } else {
        match attempt(op, simple, a as i64, b as i64) {
            Some(p) => if !seen.contains(p) {
                Some(p)
            } else {
                scan_fresh(op, lo, hi, simple, seen, a, b + 1)
            },
            None => scan_fresh(op, lo, hi, simple, seen, a, b + 1),
        }
    }
}

/// The first problem for `op` on `lo..=hi` not in `seen`, in operand order.
pub open spec fn first_fresh(op: Op, lo: i64, hi: i64, simple: bool, seen: Seq<Problem>) -> Option<
    Problem,
> {
    scan_fresh(op, lo, hi, simple, seen, lo as int, lo as int)
}

/// Up to `tries` problems drawn from state `s` in search of one not in `seen`:
/// the first fresh one drawn. When every draw repeats one in `seen`, the first
/// fresh problem in operand order, or the last one drawn (`fallback` before
/// any draw) when no problem for `op` on the range is fresh. Nothing when a
/// draw finds no problem at all. Also the state after.
#[verifier::opaque]
pub open spec fn pick_spec(
    op: Op,
    lo: i64,
    hi: i64,
    simple: bool,
    seen: Seq<Problem>,
    s: u64,
    tries: nat,
    fallback: Option<Problem>,
) -> (Option<Problem>, u64)
    decreases tries,
{
    if tries == 0 {
        match fallback {
            Some(f) => match first_fresh(op, lo, hi, simple, seen) {
                Some(q) => (Some(q), s),
                None => (Some(f), s),
            },
            None => (None, s),
        }
    } else {
        let (r, s1) = make_spec(op, lo, hi, simple, s, MAKE_TRIES as nat);
        match r {
            None => (None, s1),
            Some(p) => if !seen.contains(p) {
                (Some(p), s1)
            } else {
                pick_spec(op, lo, hi, simple, seen, s1, (tries - 1) as nat, Some(p))
            },
        }
    }
}

/// The worksheet that `generate` builds after the problems `acc`, from state
/// `s`: all `count` problems, or the operation for which no problem fits; and
/// the state after the last draw.
#[verifier::opaque]
pub open spec fn gen_spec(
    count: nat,
    ops: Seq<Op>,
    lo: i64,
    hi: i64,
    simple: bool,
    acc: Seq<Problem>,
    s: u64,
) -> (Result<Seq<Problem>, Op>, u64)
    decreases count - acc.len(),
{
    if acc.len() >= count {
        (Ok(acc), s)
    } else {
        let op = ops[(acc.len() % ops.len()) as int];
        let (r, s1) = pick_spec(op, lo, hi, simple, acc, s, FRESH_TRIES as nat, None);
        match r {
            None => (Err(op), s1),
            Some(p) => gen_spec(count, ops, lo, hi, simple, acc.push(p), s1),
        }
    }
}

/// The error reported when no `op` problem fits the range.
pub open spec fn no_fit_message(op: Op, lo: i64, hi: i64, simple: bool) -> Seq<char> {
    "no "@ + op.name_spec() + " problem fits the range "@ + signed_decimal(lo as int) + "-"@
        + signed_decimal(hi as int) + (if simple {
        " with --simple"@
    } else {
        Seq::<char>::empty()
    }) + " \u{2014} try widening --min/--max"@
}

fn no_fit_error(op: Op, lo: i64, hi: i64, simple: bool) -> (s: String)
    ensures
        s@ == no_fit_message(op, lo, hi, simple),
{
    let mut s = String::new();
    s.append("no ");
    s.append(op.name());
    s.append(" problem fits the range ");
    push_signed(&mut s, lo);
    s.append("-");
    push_signed(&mut s, hi);
    if simple {
        s.append(" with --simple");
    }
    s.append(" \u{2014} try widening --min/--max");
    s
}

fn contains_problem(ps: &Vec<Problem>, p: Problem) -> (b: bool)
    ensures
        b == ps@.contains(p),
{
    for i in 0..ps.len()
        invariant
            forall|j: int| 0 <= j < i ==> ps@[j] != p,
    {
        let q = ps[i];
        if q.a == p.a && q.b == p.b && q.op == p.op {
            assert(ps@[i as int] == p);
            return true;
        }
    }
    false
}


proof fn lemma_pick_step(
    op: Op,
    lo: i64,
    hi: i64,
    simple: bool,
    seen: Seq<Problem>,
    s: u64,
    tries: nat,
    fallback: Option<Problem>,
)
    requires
        tries > 0,
    ensures
        ({
            let (r, s1) = make_spec(op, lo, hi, simple, s, MAKE_TRIES as nat);
            pick_spec(op, lo, hi, simple, seen, s, tries, fallback) == match r {
                None => (None, s1),
                Some(p) => if !seen.contains(p) {
                    (Some(p), s1)
                } else {
                    pick_spec(op, lo, hi, simple, seen, s1, (tries - 1) as nat, Some(p))
                },
            }
        }),
{
    reveal(pick_spec);
}

proof fn lemma_gen_step(
    count: nat,
    ops: Seq<Op>,
    lo: i64,
    hi: i64,
    simple: bool,
    acc: Seq<Problem>,
    s: u64,
)
    requires
        acc.len() < count,
    ensures
        ({
            let op = ops[(acc.len() % ops.len()) as int];
            let (r, s1) = pick_spec(op, lo, hi, simple, acc, s, FRESH_TRIES as nat, None);
            gen_spec(count, ops, lo, hi, simple, acc, s) == match r {
                None => (Err(op), s1),
                Some(p) => gen_spec(count, ops, lo, hi, simple, acc.push(p), s1),
            }
        }),
{
    reveal(gen_spec);
}

proof fn lemma_gen_done(
    count: nat,
    ops: Seq<Op>,
    lo: i64,
    hi: i64,
    simple: bool,
    acc: Seq<Problem>,
    s: u64,
)
    requires
        acc.len() >= count,
    ensures
        gen_spec(count, ops, lo, hi, simple, acc, s) == (Ok::<Seq<Problem>, Op>(acc), s),
{
    reveal(gen_spec);
}


/// `first_fresh(op, lo, hi, simple, seen@)`.
fn find_fresh(op: Op, lo: i64, hi: i64, simple: bool, seen: &Vec<Problem>) -> (r: Option<
    Problem,
>)
    requires
        lo <= hi,
    ensures
        r == first_fresh(op, lo, hi, simple, seen@),
{
    let top = hi as i128;
    let mut a: i128 = lo as i128;
    while a <= top
        invariant
            lo <= a <= hi + 1,
            top == hi,
            first_fresh(op, lo, hi, simple, seen@) == scan_fresh(
                op,
                lo,
                hi,
                simple,
                seen@,
                a as int,
                lo as int,
            ),
        decreases top + 1 - a,
    {
        let mut b: i128 = lo as i128;
        while b <= top
            invariant
                lo <= a <= hi,
                lo <= b <= hi + 1,
                top == hi,
                first_fresh(op, lo, hi, simple, seen@) == scan_fresh(
                    op,
                    lo,
                    hi,
                    simple,
                    seen@,
                    a as int,
                    b as int,
                ),
            decreases top + 1 - b,
        {
            if let Some(p) = attempt_exec(op, simple, a as i64, b as i64) {
                if !contains_problem(seen, p) {
                    return Some(p);
                }
            }
            b = b + 1;
        }
        a = a + 1;
    }
    None
}

/// Draw problems until one is not yet in `seen`. When none is fresh within
/// the allowed tries, take the first fresh problem in operand order, and
/// keep the last one drawn only when every problem on the range is taken.
fn pick(op: Op, lo: i64, hi: i64, simple: bool, seen: &Vec<Problem>, rng: &mut Rng) -> (res:
    Option<Problem>)
    requires
        lo <= hi,
        hi - lo < i64::MAX,
    ensures
        (res, final(rng)@) == pick_spec(
            op,
            lo,
            hi,
            simple,
            seen@,
            old(rng)@,
            FRESH_TRIES as nat,
            None,
        ),
{
    let mut chosen: Option<Problem> = None;
    let mut t: u32 = 0;
    loop
        invariant
            t <= FRESH_TRIES,
            t > 0 ==> chosen is Some,
            lo <= hi,
            hi - lo < i64::MAX,
            pick_spec(op, lo, hi, simple, seen@, old(rng)@, FRESH_TRIES as nat, None)
                == pick_spec(op, lo, hi, simple, seen@, rng@, (FRESH_TRIES - t) as nat, chosen),
        decreases FRESH_TRIES - t,
    {
        if t == FRESH_TRIES {
            proof {
                reveal(pick_spec);
            }
            return match find_fresh(op, lo, hi, simple, seen) {
                Some(q) => Some(q),
                None => chosen,
            };
        }
        let ghost s0 = rng@;
        let ghost prev = chosen;
        let made = make(op, lo, hi, simple, rng);
        proof {
            lemma_pick_step(op, lo, hi, simple, seen@, s0, (FRESH_TRIES - t) as nat, prev);
        }
        match made {
            None => {
                return None;
            },
            Some(p) => {
                chosen = Some(p);
                if !contains_problem(seen, p) {
                    return chosen;
                }
                // else: try again for a fresh one, but keep this as the fallback
            },
        }
        t = t + 1;
    }
}

/// Build `count` problems, cycling through `ops` and avoiding repeats.
pub fn generate(count: usize, ops: &[Op], lo: i64, hi: i64, simple: bool, rng: &mut Rng) -> (res:
    Result<Vec<Problem>, String>)
    requires
        count > 0 ==> ops@.len() > 0,
        lo <= hi,
        hi - lo < i64::MAX,
    ensures
        ({
            let (r, s) = gen_spec(count as nat, ops@, lo, hi, simple, Seq::empty(), old(rng)@);
            &&& final(rng)@ == s
            &&& match r {
                Ok(ps) => res is Ok && res->Ok_0@ == ps,
                Err(op) => res is Err && res->Err_0@ == no_fit_message(op, lo, hi, simple),
            }
        }),
{
    let mut problems: Vec<Problem> = Vec::with_capacity(count);
    let ghost start = old(rng)@;
    for i in 0..count
        invariant
            count > 0 ==> ops@.len() > 0,
            lo <= hi,
            hi - lo < i64::MAX,
            problems@.len() == i,
            start == old(rng)@,
            gen_spec(count as nat, ops@, lo, hi, simple, Seq::empty(), start) == gen_spec(
                count as nat,
                ops@,
                lo,
                hi,
                simple,
                problems@,
                rng@,
            ),
    {
        let op = ops[i % ops.len()];
        proof {
            lemma_gen_step(count as nat, ops@, lo, hi, simple, problems@, rng@);
        }
        match pick(op, lo, hi, simple, &problems, rng) {
            None => {
                return Err(no_fit_error(op, lo, hi, simple));
            },
            Some(p) => problems.push(p),
        }
    }
    proof {
        lemma_gen_done(count as nat, ops@, lo, hi, simple, problems@, rng@);
    }
    Ok(problems)
}

/// `p` is a problem that `generate` may hand out for `op` on `lo..=hi`.
pub open spec fn fits(p: Problem, op: Op, lo: i64, hi: i64, simple: bool) -> bool {
    &&& p.op == op
    &&& lo <= p.a <= hi
    &&& lo <= p.b <= hi
    &&& p.op == Op::Sub ==> p.a > p.b
    &&& simple && p.op == Op::Add ==> !carries(p.a as int, p.b as int)
    &&& simple && p.op == Op::Sub ==> !borrows(p.a as int, p.b as int)
}

proof fn lemma_draw_in_range(lo: i64, hi: i64, s: u64)
    requires
        lo <= hi,
        hi - lo < i64::MAX,
    ensures
        lo <= draw(lo, hi, s).0 <= hi,
{
    let span = (hi - lo + 1) as u64;
    assert(mix(advance(s)) % span < span);
}

/// Whatever problem `make` settles on fits: it is for `op`, its operands lie
/// in `lo..=hi`, a subtraction's first operand is the larger, and under
/// `simple` no column carries or borrows.
pub proof fn lemma_make_fits(op: Op, lo: i64, hi: i64, simple: bool, s: u64, tries: nat)
    requires
        lo <= hi,
        hi - lo < i64::MAX,
    ensures
        make_spec(op, lo, hi, simple, s, tries).0 matches Some(p) ==> fits(p, op, lo, hi, simple),
    decreases tries,
{
    if tries > 0 {
        let (a, s1) = draw(lo, hi, s);
        let (b, s2) = draw(lo, hi, s1);
        lemma_draw_in_range(lo, hi, s);
        lemma_draw_in_range(lo, hi, s1);
        lemma_attempt_fits(op, lo, hi, simple, a, b);
        lemma_make_fits(op, lo, hi, simple, s2, (tries - 1) as nat);
    }
}

proof fn lemma_attempt_fits(op: Op, lo: i64, hi: i64, simple: bool, a: i64, b: i64)
    requires
        lo <= a <= hi,
        lo <= b <= hi,
    ensures
        attempt(op, simple, a, b) matches Some(p) ==> fits(p, op, lo, hi, simple),
{
}

proof fn lemma_scan_fits(
    op: Op,
    lo: i64,
    hi: i64,
    simple: bool,
    seen: Seq<Problem>,
    a: int,
    b: int,
)
    requires
        lo <= a,
        lo <= b,
    ensures
        scan_fresh(op, lo, hi, simple, seen, a, b) matches Some(p) ==> fits(p, op, lo, hi, simple)
            && !seen.contains(p),
    decreases hi - a + 1, hi - b + 1,
{
    if a <= hi {
        if b > hi {
            lemma_scan_fits(op, lo, hi, simple, seen, a + 1, lo as int);
        } else {
            lemma_attempt_fits(op, lo, hi, simple, a as i64, b as i64);
            lemma_scan_fits(op, lo, hi, simple, seen, a, b + 1);
        }
    }
}

proof fn lemma_pick_end(
    op: Op,
    lo: i64,
    hi: i64,
    simple: bool,
    seen: Seq<Problem>,
    s: u64,
    fallback: Option<Problem>,
)
    ensures
        pick_spec(op, lo, hi, simple, seen, s, 0, fallback) == match fallback {
            Some(f) => match first_fresh(op, lo, hi, simple, seen) {
                Some(q) => (Some(q), s),
                None => (Some(f), s),
            },
            None => (None, s),
        },
{
    reveal(pick_spec);
}

proof fn lemma_pick_fits(
    op: Op,
    lo: i64,
    hi: i64,
    simple: bool,
    seen: Seq<Problem>,
    s: u64,
    tries: nat,
    fallback: Option<Problem>,
)
    requires
        lo <= hi,
        hi - lo < i64::MAX,
        fallback matches Some(f) ==> fits(f, op, lo, hi, simple),
    ensures
        pick_spec(op, lo, hi, simple, seen, s, tries, fallback).0 matches Some(p) ==> fits(
            p,
            op,
            lo,
            hi,
            simple,
        ),
    decreases tries,
{
    if tries > 0 {
        lemma_pick_step(op, lo, hi, simple, seen, s, tries, fallback);
        lemma_make_fits(op, lo, hi, simple, s, MAKE_TRIES as nat);
        let (r, s1) = make_spec(op, lo, hi, simple, s, MAKE_TRIES as nat);
        if let Some(p) = r {
            lemma_pick_fits(op, lo, hi, simple, seen, s1, (tries - 1) as nat, Some(p));
        }
    } else {
        lemma_pick_end(op, lo, hi, simple, seen, s, fallback);
        lemma_scan_fits(op, lo, hi, simple, seen, lo as int, lo as int);
    }
}

/// The sheet built on top of `acc` keeps `acc` as its prefix, and every
/// problem added fits the operation that its position cycles to.
proof fn lemma_gen_fits(
    count: nat,
    ops: Seq<Op>,
    lo: i64,
    hi: i64,
    simple: bool,
    acc: Seq<Problem>,
    s: u64,
)
    requires
        count > acc.len() ==> ops.len() > 0,
        lo <= hi,
        hi - lo < i64::MAX,
        acc.len() <= count,
        forall|i: int|
            0 <= i < acc.len() ==> fits(#[trigger] acc[i], ops[i % (ops.len() as int)], lo, hi, simple),
    ensures
        gen_spec(count, ops, lo, hi, simple, acc, s).0 matches Ok(ps) ==> {
            &&& ps.len() == count
            &&& forall|i: int|
                0 <= i < count ==> fits(#[trigger] ps[i], ops[i % (ops.len() as int)], lo, hi, simple)
        },
    decreases count - acc.len(),
{
    reveal(gen_spec);
    if acc.len() < count {
        let op = ops[(acc.len() % ops.len()) as int];
        lemma_pick_fits(op, lo, hi, simple, acc, s, FRESH_TRIES as nat, None);
        let (r, s1) = pick_spec(op, lo, hi, simple, acc, s, FRESH_TRIES as nat, None);
        if let Some(p) = r {
            let next = acc.push(p);
            assert forall|i: int| 0 <= i < next.len() implies fits(
                #[trigger] next[i],
                ops[i % (ops.len() as int)],
                lo,
                hi,
                simple,
            ) by {
                if i < acc.len() {
                    assert(next[i] == acc[i]);
                }
            }
            lemma_gen_fits(count, ops, lo, hi, simple, next, s1);
        }
    }
}

/// Every problem of a generated worksheet uses the operation that its
/// position cycles to in `ops`, keeps both operands in `lo..=hi`, and meets
/// the constraints: subtraction never gives a negative or zero answer, and
/// with `simple` addition never carries and subtraction never borrows. The
/// worksheet holds exactly `count` problems.
pub proof fn lemma_generated_problems_fit(
    count: nat,
    ops: Seq<Op>,
    lo: i64,
    hi: i64,
    simple: bool,
    s: u64,
)
    requires
        count > 0 ==> ops.len() > 0,
        lo <= hi,
        hi - lo < i64::MAX,
    ensures
        gen_spec(count, ops, lo, hi, simple, Seq::empty(), s).0 matches Ok(ps) ==> {
            &&& ps.len() == count
            &&& forall|i: int|
                0 <= i < count ==> fits(#[trigger] ps[i], ops[i % (ops.len() as int)], lo, hi, simple)
        },
{
    lemma_gen_fits(count, ops, lo, hi, simple, Seq::empty(), s);
}

/// A subtraction problem that fits has a positive answer.
pub proof fn lemma_subtraction_positive(p: Problem, lo: i64, hi: i64, simple: bool)
    requires
        fits(p, Op::Sub, lo, hi, simple),
    ensures
        p.answer_spec() > 0,
{
}

proof fn lemma_digit_zero(k: nat)
    ensures
        digit(0, k) == 0,
    decreases k,
{
    if k > 0 {
        lemma_digit_zero((k - 1) as nat);
    }
}

proof fn lemma_no_borrow_digit(a: int, b: int, k: nat)
    requires
        !borrows(a, b),
    ensures
        digit(a, k) >= digit(b, k),
    decreases k,
{
    if a == 0 && b == 0 {
        lemma_digit_zero(k);
    } else if k > 0 {
        lemma_no_borrow_digit(trunc_div(a, 10), trunc_div(b, 10), (k - 1) as nat);
    }
}

proof fn lemma_two_digits(n: int, k: nat)
    requires
        0 <= n <= 99,
    ensures
        digit(n, k) == if k == 0 {
            n % 10
        } else if k == 1 {
            n / 10
        } else {
            0
        },
{
    if k >= 2 {
        assert(digit(n, k) == digit(n / 10, (k - 1) as nat));
        assert(digit(n / 10, (k - 1) as nat) == digit(0, (k - 2) as nat));
        lemma_digit_zero((k - 2) as nat);
    } else if k == 1 {
        assert(digit(n, 1) == digit(n / 10, 0));
    }
}

/// With `simple` and operands that are not negative: an addition problem that
/// fits carries in no column, its digits in each place summing to at most 9,
/// and its answer has at most two digits; a subtraction problem borrows in
/// no column, each digit on top being no smaller than the one below.
pub proof fn lemma_simple_no_regrouping(p: Problem, op: Op, lo: i64, hi: i64)
    requires
        0 <= lo,
        fits(p, op, lo, hi, true),
    ensures
        op == Op::Add ==> p.answer_spec() <= 99 && forall|k: nat|
            #![trigger digit(p.a as int, k)]
            digit(p.a as int, k) + digit(p.b as int, k) <= 9,
        op == Op::Sub ==> forall|k: nat|
            #![trigger digit(p.a as int, k)]
            digit(p.a as int, k) >= digit(p.b as int, k),
{
    if op == Op::Add {
        assert forall|k: nat| #![trigger digit(p.a as int, k)] digit(p.a as int, k) + digit(p.b as int, k) <= 9 by {
            lemma_two_digits(p.a as int, k);
            lemma_two_digits(p.b as int, k);
        }
    }
    if op == Op::Sub {
        assert forall|k: nat| #![trigger digit(p.a as int, k)] digit(p.a as int, k) >= digit(p.b as int, k) by {
            lemma_no_borrow_digit(p.a as int, p.b as int, k);
        }
    }
}

/// The same seed and inputs give the same worksheet and leave the generator
/// in the same state.
pub proof fn lemma_generate_reproducible(
    count: nat,
    ops: Seq<Op>,
    lo: i64,
    hi: i64,
    simple: bool,
    s1: u64,
    s2: u64,
)
    requires
        s1 == s2,
    ensures
        gen_spec(count, ops, lo, hi, simple, Seq::empty(), s1) == gen_spec(
            count,
            ops,
            lo,
            hi,
            simple,
            Seq::empty(),
            s2,
        ),
{
}

/// Every problem that a pair of operands in `lo..=hi` yields for `op` is
/// already in `seen`.
pub open spec fn exhausted(op: Op, lo: i64, hi: i64, simple: bool, seen: Seq<Problem>) -> bool {
    forall|x: i64, y: i64|
        lo <= x <= hi && lo <= y <= hi && (#[trigger] attempt(op, simple, x, y)) is Some
            ==> seen.contains(attempt(op, simple, x, y)->Some_0)
}

proof fn lemma_scan_none(
    op: Op,
    lo: i64,
    hi: i64,
    simple: bool,
    seen: Seq<Problem>,
    a: int,
    b: int,
)
    requires
        lo <= a,
        lo <= b,
        scan_fresh(op, lo, hi, simple, seen, a, b) is None,
    ensures
        forall|x: i64, y: i64|
            (a < x || (x == a && b <= y)) && x <= hi && lo <= y <= hi && (#[trigger] attempt(
                op,
                simple,
                x,
                y,
            )) is Some ==> seen.contains(attempt(op, simple, x, y)->Some_0),
    decreases hi - a + 1, hi - b + 1,
{
    if a <= hi {
        if b > hi {
            lemma_scan_none(op, lo, hi, simple, seen, a + 1, lo as int);
            assert forall|x: i64, y: i64|
                (a < x || (x == a && b <= y)) && x <= hi && lo <= y <= hi && (#[trigger] attempt(
                    op,
                    simple,
                    x,
                    y,
                )) is Some implies seen.contains(attempt(op, simple, x, y)->Some_0) by {
                assert(a + 1 < x || (x == a + 1 && lo <= y));
            }
        } else {
            lemma_scan_none(op, lo, hi, simple, seen, a, b + 1);
            let r = attempt(op, simple, a as i64, b as i64);
            assert(r is Some ==> seen.contains(r->Some_0));
            assert forall|x: i64, y: i64|
                (a < x || (x == a && b <= y)) && x <= hi && lo <= y <= hi && (#[trigger] attempt(
                    op,
                    simple,
                    x,
                    y,
                )) is Some implies seen.contains(attempt(op, simple, x, y)->Some_0) by {
                if x == a && y == b {
                    assert(x == a as i64 && y == b as i64);
                }
            }
        }
    }
}

proof fn lemma_pick_unique(
    op: Op,
    lo: i64,
    hi: i64,
    simple: bool,
    seen: Seq<Problem>,
    s: u64,
    tries: nat,
    fallback: Option<Problem>,
)
    ensures
        pick_spec(op, lo, hi, simple, seen, s, tries, fallback).0 matches Some(p) && seen.contains(
            p,
        ) ==> exhausted(op, lo, hi, simple, seen),
    decreases tries,
{
    if tries > 0 {
        lemma_pick_step(op, lo, hi, simple, seen, s, tries, fallback);
        let (r, s1) = make_spec(op, lo, hi, simple, s, MAKE_TRIES as nat);
        if let Some(p) = r {
            lemma_pick_unique(op, lo, hi, simple, seen, s1, (tries - 1) as nat, Some(p));
        }
    } else {
        lemma_pick_end(op, lo, hi, simple, seen, s, fallback);
        if first_fresh(op, lo, hi, simple, seen) is None {
            lemma_scan_none(op, lo, hi, simple, seen, lo as int, lo as int);
        } else {
            lemma_scan_fits(op, lo, hi, simple, seen, lo as int, lo as int);
        }
    }
}

proof fn lemma_gen_unique(
    count: nat,
    ops: Seq<Op>,
    lo: i64,
    hi: i64,
    simple: bool,
    acc: Seq<Problem>,
    s: u64,
)
    requires
        acc.len() <= count,
    ensures
        gen_spec(count, ops, lo, hi, simple, acc, s).0 matches Ok(ps) ==> {
            &&& ps.len() == count
            &&& ps.take(acc.len() as int) == acc
            &&& forall|k: int|
                acc.len() <= k < count && #[trigger] ps.take(k).contains(ps[k]) ==> exhausted(
                    ops[k % (ops.len() as int)],
                    lo,
                    hi,
                    simple,
                    ps.take(k),
                )
        },
    decreases count - acc.len(),
{
    if acc.len() >= count {
        lemma_gen_done(count, ops, lo, hi, simple, acc, s);
        assert(acc.take(acc.len() as int) == acc);
    } else {
        lemma_gen_step(count, ops, lo, hi, simple, acc, s);
        let op = ops[(acc.len() % ops.len()) as int];
        let (r, s1) = pick_spec(op, lo, hi, simple, acc, s, FRESH_TRIES as nat, None);
        lemma_pick_unique(op, lo, hi, simple, acc, s, FRESH_TRIES as nat, None);
        if let Some(p) = r {
            let next = acc.push(p);
            lemma_gen_unique(count, ops, lo, hi, simple, next, s1);
            if let Ok(ps) = gen_spec(count, ops, lo, hi, simple, acc, s).0 {
                let n = acc.len() as int;
                assert(ps.take(n) == ps.take(n + 1).take(n));
                assert(next.take(n) == acc);
                assert(ps[n] == ps.take(n + 1)[n]);
                assert(ps.take(n) == acc);
                assert(ps[n] == p);
            }
        }
    }
}

/// Problems are unique where the range allows: a problem repeats one earlier
/// on the worksheet only when every problem that a pair of operands in
/// `lo..=hi` gives for its operation is already on the sheet before it.
pub proof fn lemma_unique_unless_exhausted(
    count: nat,
    ops: Seq<Op>,
    lo: i64,
    hi: i64,
    simple: bool,
    s: u64,
)
    ensures
        gen_spec(count, ops, lo, hi, simple, Seq::empty(), s).0 matches Ok(ps) ==> forall|k: int|
            0 <= k < count && #[trigger] ps.take(k).contains(ps[k]) ==> exhausted(
                ops[k % (ops.len() as int)],
                lo,
                hi,
                simple,
                ps.take(k),
            ),
{
    lemma_gen_unique(count, ops, lo, hi, simple, Seq::empty(), s);
}

/// Every problem that a pair of operands in `lo..=hi` yields for `op`.
pub open spec fn problems_for(op: Op, lo: i64, hi: i64, simple: bool) -> Set<Problem> {
    Set::new(
        |p: Problem|
            exists|x: i64, y: i64|
                lo <= x <= hi && lo <= y <= hi && #[trigger] attempt(op, simple, x, y) == Some(p),
    )
}

/// How many of the first `n` slots of a worksheet that cycles through `ops`
/// ask for `op`.
pub open spec fn slots(ops: Seq<Op>, n: nat, op: Op) -> nat
    decreases n,
{
    if n == 0 {
        0
    } else {
        slots(ops, (n - 1) as nat, op) + if ops[(n - 1) % (ops.len() as int)] == op {
            1nat
        } else {
            0nat
        }
    }
}

/// The problems of `ps` for `op`, in order.
pub open spec fn with_op(ps: Seq<Problem>, op: Op) -> Seq<Problem>
    decreases ps.len(),
{
    if ps.len() == 0 {
        Seq::empty()
    } else if ps.last().op == op {
        with_op(ps.drop_last(), op).push(ps.last())
    } else {
        with_op(ps.drop_last(), op)
    }
}

proof fn lemma_with_op_contains(ps: Seq<Problem>, op: Op, p: Problem)
    requires
        ps.contains(p),
        p.op == op,
    ensures
        with_op(ps, op).contains(p),
    decreases ps.len(),
{
    if ps.last() == p {
        assert(with_op(ps, op).last() == p);
    } else {
        let k = choose|k: int| 0 <= k < ps.len() && ps[k] == p;
        assert(ps.drop_last()[k] == p);
        lemma_with_op_contains(ps.drop_last(), op, p);
        let w = with_op(ps.drop_last(), op);
        let i = choose|i: int| 0 <= i < w.len() && w[i] == p;
        if ps.last().op == op {
            assert(w.push(ps.last())[i] == p);
        }
    }
}

proof fn lemma_with_op_len(ps: Seq<Problem>, ops: Seq<Op>, op: Op, j: nat)
    requires
        j <= ps.len(),
        forall|k: int| 0 <= k < j ==> (#[trigger] ps[k]).op == ops[k % (ops.len() as int)],
    ensures
        with_op(ps.take(j as int), op).len() == slots(ops, j, op),
    decreases j,
{
    if j > 0 {
        lemma_with_op_len(ps, ops, op, (j - 1) as nat);
        let t = ps.take(j as int);
        assert(t.drop_last() == ps.take(j - 1));
        assert(t.last() == ps[j - 1]);
    }
}

proof fn lemma_slots_grow(ops: Seq<Op>, n: nat, m: nat, op: Op)
    requires
        n <= m,
    ensures
        slots(ops, n, op) <= slots(ops, m, op),
    decreases m,
{
    if n < m {
        lemma_slots_grow(ops, n, (m - 1) as nat, op);
    }
}

/// Problems are unique where the range allows: when the range holds, for
/// each operation, at least as many different problems as the worksheet has
/// slots for that operation, no problem on the worksheet repeats.
pub proof fn lemma_unique_when_range_allows(
    count: nat,
    ops: Seq<Op>,
    lo: i64,
    hi: i64,
    simple: bool,
    s: u64,
)
    requires
        count > 0 ==> ops.len() > 0,
        lo <= hi,
        hi - lo < i64::MAX,
        forall|op: Op| #[trigger] problems_for(op, lo, hi, simple).len() >= slots(ops, count, op),
    ensures
        gen_spec(count, ops, lo, hi, simple, Seq::empty(), s).0 matches Ok(ps) ==> forall|i: int, j: int|
            0 <= i < j < count ==> ps[i] != ps[j],
{
    lemma_generated_problems_fit(count, ops, lo, hi, simple, s);
    lemma_unique_unless_exhausted(count, ops, lo, hi, simple, s);
    if let Ok(ps) = gen_spec(count, ops, lo, hi, simple, Seq::empty(), s).0 {
        assert forall|i: int, j: int| 0 <= i < j < count implies ps[i] != ps[j] by {
            if ps[i] == ps[j] {
                let op = ops[j % (ops.len() as int)];
                let before = ps.take(j);
                assert(before[i] == ps[j]);
                assert(before.contains(ps[j]));
                assert(exhausted(op, lo, hi, simple, before));
                let w = with_op(before, op);
                assert forall|k: int| 0 <= k < j implies (#[trigger] ps[k]).op == ops[k % (
                ops.len() as int)] by {
                    assert(fits(ps[k], ops[k % (ops.len() as int)], lo, hi, simple));
                }
                lemma_with_op_len(ps, ops, op, j as nat);
                let all = problems_for(op, lo, hi, simple);
                assert forall|p: Problem| all.contains(p) implies w.to_set().contains(p) by {
                    let (x, y) = choose|x: i64, y: i64|
                        lo <= x <= hi && lo <= y <= hi && #[trigger] attempt(op, simple, x, y)
                            == Some(p);
                    assert(before.contains(attempt(op, simple, x, y)->Some_0));
                    lemma_with_op_contains(before, op, p);
                }
                vstd::seq_lib::seq_to_set_is_finite(w);
                w.lemma_cardinality_of_set();
                vstd::set_lib::lemma_len_subset(all, w.to_set());
                assert(fits(ps[j], op, lo, hi, simple));
                assert(slots(ops, (j + 1) as nat, op) == slots(ops, j as nat, op) + 1);
                lemma_slots_grow(ops, (j + 1) as nat, count, op);
            }
        }
    }
}

/// For multiplication, and for addition when not `simple`, `make` takes the
/// first pair drawn.
pub proof fn lemma_make_takes_first_pair(
    op: Op,
    lo: i64,
    hi: i64,
    simple: bool,
    s: u64,
    tries: nat,
)
    requires
        tries > 0,
        op == Op::Mul || (op == Op::Add && !simple),
    ensures
        ({
            let (a, s1) = draw(lo, hi, s);
            let (b, s2) = draw(lo, hi, s1);
            make_spec(op, lo, hi, simple, s, tries) == (Some(Problem { a, b, op }), s2)
        }),
{
}

/// No pair of operands in `lo..=hi` gives a problem for `op`.
pub open spec fn no_problem_for(op: Op, lo: i64, hi: i64, simple: bool) -> bool {
    forall|x: i64, y: i64|
        lo <= x <= hi && lo <= y <= hi ==> (#[trigger] attempt(op, simple, x, y)) is None
}

proof fn lemma_make_none(op: Op, lo: i64, hi: i64, simple: bool, s: u64, tries: nat)
    requires
        lo <= hi,
        hi - lo < i64::MAX,
        no_problem_for(op, lo, hi, simple),
    ensures
        make_spec(op, lo, hi, simple, s, tries).0 is None,
    decreases tries,
{
    if tries > 0 {
        let (a, s1) = draw(lo, hi, s);
        let (b, s2) = draw(lo, hi, s1);
        lemma_draw_in_range(lo, hi, s);
        lemma_draw_in_range(lo, hi, s1);
        assert(attempt(op, simple, a, b) is None);
        lemma_make_none(op, lo, hi, simple, s2, (tries - 1) as nat);
    }
}

proof fn lemma_gen_fails(
    count: nat,
    ops: Seq<Op>,
    lo: i64,
    hi: i64,
    simple: bool,
    acc: Seq<Problem>,
    s: u64,
    i: nat,
)
    requires
        acc.len() <= i < count,
        ops.len() > 0,
        lo <= hi,
        hi - lo < i64::MAX,
        no_problem_for(ops[(i % ops.len()) as int], lo, hi, simple),
    ensures
        gen_spec(count, ops, lo, hi, simple, acc, s).0 is Err,
    decreases i - acc.len(),
{
    lemma_gen_step(count, ops, lo, hi, simple, acc, s);
    let op = ops[(acc.len() % ops.len()) as int];
    lemma_pick_step(op, lo, hi, simple, acc, s, FRESH_TRIES as nat, None);
    if acc.len() == i {
        lemma_make_none(op, lo, hi, simple, s, MAKE_TRIES as nat);
    } else {
        let (r, s1) = pick_spec(op, lo, hi, simple, acc, s, FRESH_TRIES as nat, None);
        if let Some(p) = r {
            lemma_gen_fails(count, ops, lo, hi, simple, acc.push(p), s1, i);
        }
    }
}

/// When the operation of some slot has no problem at all on the range,
/// `generate` reports an error rather than a partial worksheet.
pub proof fn lemma_generate_fails_without_problems(
    count: nat,
    ops: Seq<Op>,
    lo: i64,
    hi: i64,
    simple: bool,
    s: u64,
    i: nat,
)
    requires
        i < count,
        ops.len() > 0,
        lo <= hi,
        hi - lo < i64::MAX,
        no_problem_for(ops[(i % ops.len()) as int], lo, hi, simple),
    ensures
        gen_spec(count, ops, lo, hi, simple, Seq::empty(), s).0 is Err,
{
    lemma_gen_fails(count, ops, lo, hi, simple, Seq::empty(), s, i);
}

/// The generator's state step is a bijection: distinct states step to
/// distinct states, and every state is the step of some state.
pub proof fn lemma_advance_bijective(s1: u64, s2: u64, t: u64)
    ensures
        advance(s1) == advance(s2) ==> s1 == s2,
        advance(t.wrapping_sub(GAMMA)) == t,
{
}

/// The state after `k` draws from state `s`, each draw one step.
pub open spec fn advance_by(s: u64, k: nat) -> u64
    decreases k,
{
    if k == 0 {
        s
    } else {
        advance(advance_by(s, (k - 1) as nat))
    }
}

/// After `k` draws from seed `s`, whatever their ranges, the state is
/// `s + k * GAMMA` modulo 2^64, so the next draw is the first draw of a
/// generator seeded with that value.
pub proof fn lemma_state_after_draws(s: u64, k: nat, lo: i64, hi: i64)
    ensures
        advance_by(s, k) == (s + k * GAMMA) % 0x1_0000_0000_0000_0000,
        draw(lo, hi, advance_by(s, k)) == draw(
            lo,
            hi,
            ((s + k * GAMMA) % 0x1_0000_0000_0000_0000) as u64,
        ),
    decreases k,
{
    if k > 0 {
        lemma_state_after_draws(s, (k - 1) as nat, lo, hi);
        let m: int = 0x1_0000_0000_0000_0000;
        let prev: int = (s + (k - 1) * GAMMA) % m;
        assert(advance_by(s, k) == (prev + GAMMA) % m);
        assert((prev + GAMMA) % m == (s + (k - 1) * GAMMA + GAMMA) % m) by {
            vstd::arithmetic::div_mod::lemma_add_mod_noop(s + (k - 1) * GAMMA, GAMMA as int, m);
            vstd::arithmetic::div_mod::lemma_mod_twice(GAMMA as int, m);
            vstd::arithmetic::div_mod::lemma_add_mod_noop(prev, GAMMA as int, m);
        }
        assert(s + (k - 1) * GAMMA + GAMMA == s + k * GAMMA) by (nonlinear_arith);
    }
}

proof fn lemma_xorshift_injective(x: u64, y: u64)
    ensures
        x ^ (x >> 30u64) == y ^ (y >> 30u64) ==> x == y,
        x ^ (x >> 27u64) == y ^ (y >> 27u64) ==> x == y,
        x ^ (x >> 31u64) == y ^ (y >> 31u64) ==> x == y,
{
    assert(x ^ (x >> 30u64) == y ^ (y >> 30u64) ==> x == y) by (bit_vector);
    assert(x ^ (x >> 27u64) == y ^ (y >> 27u64) ==> x == y) by (bit_vector);
    assert(x ^ (x >> 31u64) == y ^ (y >> 31u64) ==> x == y) by (bit_vector);
}

/// Multiplying by `MIX1` or `MIX2` modulo 2^64 loses nothing: both are odd,
/// with inverses `0x96DE1B173F119089` and `0x319642B2D24D8EC3`.
proof fn lemma_mix_multiply_injective(x: u64, y: u64)
    ensures
        x.wrapping_mul(MIX1) == y.wrapping_mul(MIX1) ==> x == y,
        x.wrapping_mul(MIX2) == y.wrapping_mul(MIX2) ==> x == y,
{
    assert(((x * 0xBF58_476D_1CE4_E5B9u64) % 0x1_0000_0000_0000_0000) as u64 == (x
        * 0xBF58_476D_1CE4_E5B9u64) as u64) by (bit_vector);
    assert(((y * 0xBF58_476D_1CE4_E5B9u64) % 0x1_0000_0000_0000_0000) as u64 == (y
        * 0xBF58_476D_1CE4_E5B9u64) as u64) by (bit_vector);
    assert((((x * 0xBF58_476D_1CE4_E5B9u64) as u64) * 0x96DE_1B17_3F11_9089u64) as u64 == x)
        by (bit_vector);
    assert((((y * 0xBF58_476D_1CE4_E5B9u64) as u64) * 0x96DE_1B17_3F11_9089u64) as u64 == y)
        by (bit_vector);
    assert(((x * 0x94D0_49BB_1331_11EBu64) % 0x1_0000_0000_0000_0000) as u64 == (x
        * 0x94D0_49BB_1331_11EBu64) as u64) by (bit_vector);
    assert(((y * 0x94D0_49BB_1331_11EBu64) % 0x1_0000_0000_0000_0000) as u64 == (y
        * 0x94D0_49BB_1331_11EBu64) as u64) by (bit_vector);
    assert((((x * 0x94D0_49BB_1331_11EBu64) as u64) * 0x3196_42B2_D24D_8EC3u64) as u64 == x)
        by (bit_vector);
    assert((((y * 0x94D0_49BB_1331_11EBu64) as u64) * 0x3196_42B2_D24D_8EC3u64) as u64 == y)
        by (bit_vector);
}

/// SplitMix64's output function is a bijection too, so generators whose
/// states differ give different next outputs: two generators made from
/// different seeds differ in their first `next_u64`.
pub proof fn lemma_distinct_states_distinct_outputs(s1: u64, s2: u64)
    requires
        s1 != s2,
    ensures
        mix(advance(s1)) != mix(advance(s2)),
{
    let (a, b) = (advance(s1), advance(s2));
    lemma_advance_bijective(s1, s2, 0);
    let a1 = (a ^ (a >> 30u64)).wrapping_mul(MIX1);
    let b1 = (b ^ (b >> 30u64)).wrapping_mul(MIX1);
    let a2 = (a1 ^ (a1 >> 27u64)).wrapping_mul(MIX2);
    let b2 = (b1 ^ (b1 >> 27u64)).wrapping_mul(MIX2);
    lemma_xorshift_injective(a, b);
    lemma_xorshift_injective(a1, b1);
    lemma_xorshift_injective(a2, b2);
    lemma_mix_multiply_injective(a ^ (a >> 30u64), b ^ (b >> 30u64));
    lemma_mix_multiply_injective(a1 ^ (a1 >> 27u64), b1 ^ (b1 >> 27u64));
}

} // verus!
