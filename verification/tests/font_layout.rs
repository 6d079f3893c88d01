use mathgen::font::{width, Font};
use mathgen::layout::{answer_cell, answer_line, answer_rows, digits, page_count, page_label, problem_cell};
use mathgen::problem::{Op, Problem};

#[test]
fn advance_widths_come_from_the_tables() {
    assert_eq!(Font::Bold.advance('8'), 556);
    assert_eq!(Font::Regular.advance(' '), 278);
    assert_eq!(Font::Regular.advance('@'), 1015);
    assert_eq!(Font::Bold.advance('@'), 975);
    assert_eq!(Font::Regular.advance('~'), 584);
    assert_eq!(Font::Bold.advance('\u{2013}'), 556);
    assert_eq!(Font::Bold.advance('\u{2014}'), 1000);
    assert_eq!(Font::Regular.advance('\u{00D7}'), 584);
    // Anything else measures as a question mark.
    assert_eq!(Font::Regular.advance('\u{20AC}'), 556);
    assert_eq!(Font::Bold.advance('\u{20AC}'), 611);
    assert_eq!(Font::Regular.resource(), "F1");
    assert_eq!(Font::Bold.resource(), "F2");
}

#[test]
fn widths_add_up_the_advances() {
    assert_eq!(width("88", Font::Bold), 1112);
    assert_eq!(width("", Font::Regular), 0);
    assert_eq!(width("Name:", Font::Regular), 722 + 556 + 833 + 556 + 278);
}

#[test]
fn digits_is_the_widest_operand() {
    assert_eq!(digits(&[]), 2);
    let ps = [
        Problem { a: 7, b: 3, op: Op::Add },
        Problem { a: 12, b: -100, op: Op::Sub },
        Problem { a: 99, b: 99, op: Op::Mul },
    ];
    assert_eq!(digits(&ps), 4);
    assert_eq!(digits(&ps[..1]), 1);
}

#[test]
fn pages_and_cells() {
    assert_eq!(page_count(0, 9), 0);
    assert_eq!(page_count(9, 9), 1);
    assert_eq!(page_count(10, 9), 2);
    assert_eq!(problem_cell(4, 3), (1, 1));
    assert_eq!(problem_cell(8, 3), (2, 2));
    // Ten answers in four columns balance at three rows, not ten.
    assert_eq!(answer_rows(10, 4, 30), 3);
    assert_eq!(answer_rows(200, 4, 30), 30);
    assert_eq!(answer_cell(7, 3), (2, 1));
    let rows = answer_rows(10, 4, 30);
    let cells: std::collections::HashSet<_> = (0..10).map(|i| answer_cell(i, rows)).collect();
    assert_eq!(cells.len(), 10);
    assert!(cells.iter().all(|&(c, r)| c < 4 && r < rows));
}

#[test]
fn answer_lines_and_page_labels() {
    let p = Problem { a: 51, b: 29, op: Op::Add };
    assert_eq!(answer_line(3, &p), "3.  51 + 29 = 80");
    let p = Problem { a: 6, b: 7, op: Op::Mul };
    assert_eq!(answer_line(12, &p), "12.  6 \u{00D7} 7 = 42");
    assert_eq!(page_label(1, 2), "Page 1 of 2");
}

#[test]
fn the_summary_names_operations_pages_and_key() {
    assert_eq!(
        mathgen::layout::summary("out.pdf", &[Op::Add, Op::Sub], 1, 2, true, "52"),
        "out.pdf: 1 addition, subtraction problem across 2 pages + answer key (52pt digits)"
    );
    assert_eq!(
        mathgen::layout::summary("w.pdf", &[Op::Mul], 40, 1, false, "36"),
        "w.pdf: 40 multiplication problems across 1 page (36pt digits)"
    );
}

#[test]
fn digit_strings_of_one_length_measure_the_same() {
    assert_eq!(width("1234", Font::Bold), width("9870", Font::Bold));
    assert_eq!(width("00", Font::Regular), 556 * 2);
}

#[test]
fn every_character_has_a_positive_width() {
    for c in [' ', '!', '\'', 'i', 'l', '|', '\u{2013}', '\u{00E9}', '\u{1F600}', '\0'] {
        for f in [Font::Regular, Font::Bold] {
            let w = f.advance(c);
            assert!(w > 0 && w <= 1015, "{c:?}");
        }
    }
}
