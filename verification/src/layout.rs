//! The integer side of the worksheet geometry: how many pages, which cell of
//! the grid each problem or answer takes, how wide the operands are, and the
//! text of the numbered answer lines and page labels. The measurements in
//! points are made by the program around the library.

use vstd::prelude::*;

use crate::problem::{Op, Problem};
use crate::text::{push_decimal, signed_decimal, signed_to_string, decimal};

verus! {

/// `n / d` rounded up.
pub open spec fn ceil_div(n: nat, d: nat) -> nat {
    ((n + d - 1) / (d as int)) as nat
}

/// Pages needed for `n` items, `per_page` to a page.
pub fn page_count(n: usize, per_page: usize) -> (r: usize)
    requires
        per_page > 0,
    ensures
        r == ceil_div(n as nat, per_page as nat),
{
    let q = n / per_page;
    let r = n % per_page;
    proof {
        lemma_ceil_div(n as nat, per_page as nat);
    }
    if r == 0 {
        q
    } else {
        assert(q < usize::MAX) by (nonlinear_arith)
            requires
                q == n / per_page,
                r == n % per_page,
                r != 0,
                per_page > 0,
                n <= usize::MAX,
        ;
        q + 1
    }
}

proof fn lemma_ceil_div(n: nat, d: nat)
    requires
        d > 0,
    ensures
        ceil_div(n, d) == n / d + if n % d == 0 {
            0nat
        } else {
            1nat
        },
{
    let q = n / d;
    let r = n % d;
    assert(n == q * d + r) by (nonlinear_arith)
        requires
            d > 0,
            q == n / d,
            r == n % d,
    ;
    assert((n + d - 1) / (d as int) == q + (r + d - 1) / (d as int)) by (nonlinear_arith)
        requires
            d > 0,
            n == q * d + r,
            0 <= r < d,
    ;
    assert((r + d - 1) / (d as int) == if r == 0 {
        0int
    } else {
        1int
    }) by (nonlinear_arith)
        requires
            d > 0,
            0 <= r < d,
    ;
}

/// Characters in the wider of the two operands of `p`, written in decimal.
pub open spec fn operand_width(p: Problem) -> nat {
    let a = signed_decimal(p.a as int).len();
    let b = signed_decimal(p.b as int).len();
    if a >= b {
        a
    } else {
        b
    }
}

/// The widest operand among `ps`, 0 for none.
pub open spec fn widest(ps: Seq<Problem>) -> nat
    decreases ps.len(),
{
    if ps.len() == 0 {
        0
    } else {
        let w = widest(ps.drop_last());
        let x = operand_width(ps.last());
        if w >= x {
            w
        } else {
            x
        }
    }
}

/// How many digit widths the stacked problems are set for: the widest operand,
/// or 2 when there are no problems.
pub open spec fn digits_spec(ps: Seq<Problem>) -> nat {
    if ps.len() == 0 {
        2
    } else {
        widest(ps)
    }
}

pub fn digits(problems: &[Problem]) -> (d: usize)
    ensures
        d == digits_spec(problems@),
{
    if problems.len() == 0 {
        return 2;
    }
    let mut w: usize = 0;
    for i in 0..problems.len()
        invariant
            w == widest(problems@.take(i as int)),
    {
        let p = problems[i];
        let a = signed_to_string(p.a).as_str().unicode_len();
        let b = signed_to_string(p.b).as_str().unicode_len();
        let x = if a >= b {
            a
        } else {
            b
        };
        if x > w {
            w = x;
        }
        assert(problems@.take(i + 1).drop_last() == problems@.take(i as int));
    }
    assert(problems@.take(problems@.len() as int) == problems@);
    w
}

/// Rows an answer-key page uses for `len` answers in `cols` columns of at most
/// `max_rows`: the columns are balanced rather than the first filled to the
/// bottom.
pub open spec fn answer_rows_spec(len: nat, cols: nat, max_rows: nat) -> nat {
    let needed = ceil_div(len, cols);
    if max_rows <= needed {
        max_rows
    } else {
        needed
    }
}

pub fn answer_rows(len: usize, cols: usize, max_rows: usize) -> (r: usize)
    requires
        cols > 0,
    ensures
        r == answer_rows_spec(len as nat, cols as nat, max_rows as nat),
{
    let needed = page_count(len, cols);
    if max_rows <= needed {
        max_rows
    } else {
        needed
    }
}

/// Column and row of answer `i` on a page with `rows` rows, filled column by
/// column.
pub fn answer_cell(i: usize, rows: usize) -> (cell: (usize, usize))
    requires
        rows > 0,
    ensures
        cell == ((i / rows) as usize, (i % rows) as usize),
{
    (i / rows, i % rows)
}

/// Column and row of problem `i` on a page of `cols` columns, filled row by
/// row.
pub fn problem_cell(i: usize, cols: usize) -> (cell: (usize, usize))
    requires
        cols > 0,
    ensures
        cell == ((i % cols) as usize, (i / cols) as usize),
{
    (i % cols, i / cols)
}

/// On an answer-key page of `cols` columns and at most `max_rows` rows that
/// holds `len` answers (no more than fit), each answer gets a cell of the grid
/// and no two answers share one.
pub proof fn lemma_answer_cells_fit(len: nat, cols: nat, max_rows: nat, i: nat, j: nat)
    requires
        cols > 0,
        max_rows > 0,
        0 < len <= cols * max_rows,
        i < len,
        j < len,
    ensures
        ({
            let rows = answer_rows_spec(len, cols, max_rows);
            &&& rows > 0
            &&& i / rows < cols
            &&& i % rows < rows
            &&& (i != j ==> (i / rows, i % rows) != (j / rows, j % rows))
        }),
{
    let rows = answer_rows_spec(len, cols, max_rows);
    let needed = ceil_div(len, cols);
    assert(needed * cols >= len) by (nonlinear_arith)
        requires
            needed == ((len + cols - 1) / (cols as int)) as nat,
            cols > 0,
    ;
    assert(needed > 0) by (nonlinear_arith)
        requires
            needed == ((len + cols - 1) / (cols as int)) as nat,
            cols > 0,
            len > 0,
    ;
    assert(rows * cols >= len) by (nonlinear_arith)
        requires
            rows == needed || rows == max_rows,
            needed * cols >= len,
            cols * max_rows >= len,
    ;
    assert(i / rows < cols) by (nonlinear_arith)
        requires
            rows > 0,
            i < len,
            rows * cols >= len,
    ;
    assert(i != j ==> (i / rows, i % rows) != (j / rows, j % rows)) by (nonlinear_arith)
        requires
            rows > 0,
    {
        if i != j && i / rows == j / rows && i % rows == j % rows {
            assert(i == rows * (i / rows) + i % rows);
            assert(j == rows * (j / rows) + j % rows);
        }
    }
}

/// On a page of `cols` columns and `rows` rows, each of the problems it holds
/// gets a cell of the grid and no two problems share one.
pub proof fn lemma_problem_cells_fit(cols: nat, rows: nat, i: nat, j: nat)
    requires
        cols > 0,
        i < cols * rows,
        j < cols * rows,
    ensures
        i % cols < cols,
        i / cols < rows,
        i != j ==> (i % cols, i / cols) != (j % cols, j / cols),
{
    assert(i / cols < rows) by (nonlinear_arith)
        requires
            cols > 0,
            i < cols * rows,
    ;
    assert(i != j ==> (i % cols, i / cols) != (j % cols, j / cols)) by (nonlinear_arith)
        requires
            cols > 0,
    {
        if i != j && i % cols == j % cols && i / cols == j / cols {
            assert(i == cols * (i / cols) + i % cols);
            assert(j == cols * (j / cols) + j % cols);
        }
    }
}

/// The answer-key line for problem number `n`: `n.  a op b = answer`.
pub open spec fn answer_line_spec(n: nat, p: Problem) -> Seq<char> {
    decimal(n) + ".  "@ + p.inline_spec()
}

pub fn answer_line(n: usize, p: &Problem) -> (s: String)
    requires
        p.answer_fits(),
    ensures
        s@ == answer_line_spec(n as nat, *p),
{
    let mut s = String::new();
    push_decimal(&mut s, n as u64);
    s.append(".  ");
    s.append(p.inline().as_str());
    s
}

/// The footer of problem page `k` of `total`: `Page k of total`.
pub open spec fn page_label_spec(k: nat, total: nat) -> Seq<char> {
    "Page "@ + decimal(k) + " of "@ + decimal(total)
}

pub fn page_label(k: usize, total: usize) -> (s: String)
    ensures
        s@ == page_label_spec(k as nat, total as nat),
{
    let mut s = String::new();
    s.append("Page ");
    push_decimal(&mut s, k as u64);
    s.append(" of ");
    push_decimal(&mut s, total as u64);
    s
}

/// The names of the operations, separated by `, `.
pub open spec fn joined_names(ops: Seq<Op>) -> Seq<char>
    decreases ops.len(),
{
    if ops.len() == 0 {
        Seq::empty()
    } else if ops.len() == 1 {
        ops[0].name_spec()
    } else {
        joined_names(ops.drop_last()) + ", "@ + ops.last().name_spec()
    }
}

pub open spec fn plural(k: nat) -> Seq<char> {
    if k == 1 {
        Seq::empty()
    } else {
        "s"@
    }
}

/// The line reporting a finished worksheet, the type size already written out.
pub open spec fn summary_spec(
    output: Seq<char>,
    ops: Seq<Op>,
    n: nat,
    pages: nat,
    answers: bool,
    size: Seq<char>,
) -> Seq<char> {
    output + ": "@ + decimal(n) + " "@ + joined_names(ops) + " problem"@ + plural(n)
        + " across "@ + decimal(pages) + " page"@ + plural(pages) + (if answers {
        " + answer key"@
    } else {
        Seq::empty()
    }) + " ("@ + size + "pt digits)"@
}

pub fn summary(output: &str, ops: &[Op], n: usize, pages: usize, answers: bool, size: &str) -> (s:
    String)
    ensures
        s@ == summary_spec(output@, ops@, n as nat, pages as nat, answers, size@),
{
    let mut s = String::new();
    s.append(output);
    s.append(": ");
    push_decimal(&mut s, n as u64);
    s.append(" ");
    let ghost start = s@;
    for i in 0..ops.len()
        invariant
            s@ == start + joined_names(ops@.take(i as int)),
    {
        if i > 0 {
            s.append(", ");
        }
        s.append(ops[i].name());
        assert(ops@.take(i + 1).drop_last() == ops@.take(i as int));
        assert(ops@.take(i + 1).last() == ops@[i as int]);
        if i == 0 {
            assert(ops@.take(1)[0] == ops@[0]);
        }
    }
    assert(ops@.take(ops@.len() as int) == ops@);
    s.append(" problem");
    if n != 1 {
        s.append("s");
    }
    s.append(" across ");
    push_decimal(&mut s, pages as u64);
    s.append(" page");
    if pages != 1 {
        s.append("s");
    }
    if answers {
        s.append(" + answer key");
    }
    s.append(" (");
    s.append(size);
    s.append("pt digits)");
    proof {
        reveal_strlit("");
    }
    s
}

/// Pages hold what they must and no more: `page_count(n, per_page)` pages of
/// `per_page` items hold all `n` items, and one page fewer would not.
pub proof fn lemma_page_count_fewest(n: nat, per_page: nat)
    requires
        per_page > 0,
    ensures
        n <= ceil_div(n, per_page) * per_page,
        ceil_div(n, per_page) == 0 || (ceil_div(n, per_page) - 1) * per_page < n,
{
    lemma_ceil_div(n, per_page);
    let q = n / per_page;
    let r = n % per_page;
    assert(n == q * per_page + r) by (nonlinear_arith)
        requires
            per_page > 0,
            q == n / per_page,
            r == n % per_page,
    ;
    if r == 0 {
        assert(q == 0 || (q - 1) * per_page < n) by (nonlinear_arith)
            requires
                n == q * per_page,
                per_page > 0,
        ;
    } else {
        assert(n <= (q + 1) * per_page) by (nonlinear_arith)
            requires
                n == q * per_page + r,
                r < per_page,
        ;
    }
}

/// The answer key balances its columns: a page uses the fewest rows that hold
/// all `len` answers in `cols` columns, and never more than `max_rows`.
pub proof fn lemma_answer_rows_balanced(len: nat, cols: nat, max_rows: nat)
    requires
        cols > 0,
    ensures
        answer_rows_spec(len, cols, max_rows) <= max_rows,
        answer_rows_spec(len, cols, max_rows) == max_rows || len <= answer_rows_spec(
            len,
            cols,
            max_rows,
        ) * cols,
        answer_rows_spec(len, cols, max_rows) == 0 || (answer_rows_spec(len, cols, max_rows) - 1)
            * cols < len,
{
    lemma_page_count_fewest(len, cols);
    let r = answer_rows_spec(len, cols, max_rows);
    let needed = ceil_div(len, cols);
    if r != needed {
        assert(r == max_rows && max_rows < needed);
        assert((r - 1) * cols < len) by (nonlinear_arith)
            requires
                r < needed,
                needed == 0 || (needed - 1) * cols < len,
                cols > 0,
        ;
    }
}

/// The stacked problems are set for their widest operand: every operand,
/// first or second, of every problem fits in `digits_spec(ps)` characters,
/// and when there are problems some operand takes exactly that many. With no
/// problems the width is two digits.
pub proof fn lemma_digits_fit_every_operand(ps: Seq<Problem>)
    ensures
        forall|i: int|
            0 <= i < ps.len() ==> signed_decimal((#[trigger] ps[i]).a as int).len() <= digits_spec(ps)
                && signed_decimal(ps[i].b as int).len() <= digits_spec(ps),
        ps.len() > 0 ==> exists|i: int|
            0 <= i < ps.len() && (signed_decimal((#[trigger] ps[i]).a as int).len() == digits_spec(
                ps,
            ) || signed_decimal(ps[i].b as int).len() == digits_spec(ps)),
        ps.len() == 0 ==> digits_spec(ps) == 2,
{
    lemma_widest(ps);
}

proof fn lemma_widest(ps: Seq<Problem>)
    ensures
        forall|i: int|
            0 <= i < ps.len() ==> signed_decimal((#[trigger] ps[i]).a as int).len() <= widest(ps)
                && signed_decimal(ps[i].b as int).len() <= widest(ps),
        ps.len() > 0 ==> exists|i: int|
            0 <= i < ps.len() && (signed_decimal((#[trigger] ps[i]).a as int).len() == widest(ps)
                || signed_decimal(ps[i].b as int).len() == widest(ps)),
    decreases ps.len(),
{
    if ps.len() > 0 {
        let p = ps.drop_last();
        lemma_widest(p);
        let last = ps.len() - 1;
        assert(ps[last] == ps.last());
        assert forall|i: int| 0 <= i < ps.len() implies signed_decimal((#[trigger] ps[i]).a as int).len()
            <= widest(ps) && signed_decimal(ps[i].b as int).len() <= widest(ps) by {
            if i < last {
                assert(ps[i] == p[i]);
            }
        }
        if widest(p) >= operand_width(ps.last()) && p.len() > 0 {
            let j = choose|j: int|
                0 <= j < p.len() && (signed_decimal((#[trigger] p[j]).a as int).len() == widest(p)
                    || signed_decimal(p[j].b as int).len() == widest(p));
            assert(ps[j] == p[j]);
        } else {
            assert(0 <= last < ps.len());
            assert(signed_decimal(ps[last].a as int).len() == widest(ps) || signed_decimal(
                ps[last].b as int,
            ).len() == widest(ps));
        }
    }
}

/// The names of the operations joined: two runs of operations, each with at
/// least one, name as the names of the first, `, `, then the names of the
/// second; a single operation is named alone.
pub proof fn lemma_names_joined(xs: Seq<Op>, ys: Seq<Op>)
    ensures
        xs.len() > 0 && ys.len() > 0 ==> joined_names(xs + ys) == joined_names(xs) + ", "@
            + joined_names(ys),
        xs.len() == 1 ==> joined_names(xs) == xs[0].name_spec(),
        xs.len() == 0 ==> joined_names(xs) == Seq::<char>::empty(),
    decreases ys.len(),
{
    if xs.len() > 0 && ys.len() > 0 {
        if ys.len() == 1 {
            assert((xs + ys).drop_last() == xs);
            assert((xs + ys).last() == ys[0]);
        } else {
            lemma_names_joined(xs, ys.drop_last());
            assert((xs + ys).drop_last() == xs + ys.drop_last());
            assert((xs + ys).last() == ys.last());
        }
    }
}

/// The summary line in words: where the file went, how many problems of
/// which operations (a plural `s` unless there is exactly one), across how
/// many pages (likewise), whether an answer key follows, and the type size.
pub proof fn lemma_summary_words(
    output: Seq<char>,
    ops: Seq<Op>,
    n: nat,
    pages: nat,
    answers: bool,
    size: Seq<char>,
)
    ensures
        summary_spec(output, ops, n, pages, answers, size) == output + ": "@ + decimal(n) + " "@
            + joined_names(ops) + (if n == 1 {
            " problem"@
        } else {
            " problems"@
        }) + " across "@ + decimal(pages) + (if pages == 1 {
            " page"@
        } else {
            " pages"@
        }) + (if answers {
            " + answer key"@
        } else {
            ""@
        }) + " ("@ + size + "pt digits)"@,
{
    reveal_strlit(" problem");
    reveal_strlit(" problems");
    reveal_strlit(" page");
    reveal_strlit(" pages");
    reveal_strlit("s");
    reveal_strlit("");
    assert(" problem"@ + "s"@ =~= " problems"@);
    assert(" page"@ + "s"@ =~= " pages"@);
    assert(" problem"@ + Seq::<char>::empty() =~= " problem"@);
    assert(" page"@ + Seq::<char>::empty() =~= " page"@);
    assert(""@ =~= Seq::<char>::empty());
    let a = output + ": "@ + decimal(n) + " "@ + joined_names(ops);
    assert(summary_spec(output, ops, n, pages, answers, size) =~= a + (" problem"@ + plural(n))
        + " across "@ + decimal(pages) + (" page"@ + plural(pages)) + (if answers {
        " + answer key"@
    } else {
        Seq::empty()
    }) + " ("@ + size + "pt digits)"@);
}

} // verus!
