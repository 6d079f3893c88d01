//! Advance widths for the two PDF built-in fonts we use, so we can right-align
//! and centre text without embedding or parsing a font file.

use vstd::prelude::*;

verus! {

/// Helvetica advance widths (1/1000 em) for ASCII 32..=126.
pub const HELV: [u16; 95] = [
    278, 278, 355, 556, 556, 889, 667, 191, 333, 333, 389, 584,
    278, 333, 278, 278, 556, 556, 556, 556, 556, 556, 556, 556,
    556, 556, 278, 278, 584, 584, 584, 556, 1015, 667, 667, 722,
    722, 667, 611, 778, 722, 278, 500, 667, 556, 833, 722, 778,
    667, 778, 722, 667, 611, 722, 667, 944, 667, 667, 611, 278,
    278, 278, 469, 556, 333, 556, 556, 500, 556, 556, 278, 556,
    556, 222, 222, 500, 222, 833, 556, 556, 556, 556, 333, 500,
    278, 556, 500, 722, 500, 500, 500, 334, 260, 334, 584,
];

/// Helvetica-Bold advance widths (1/1000 em) for ASCII 32..=126.
pub const HELV_BOLD: [u16; 95] = [
    278, 333, 474, 556, 556, 889, 722, 238, 333, 333, 389, 584,
    278, 333, 278, 278, 556, 556, 556, 556, 556, 556, 556, 556,
    556, 556, 333, 333, 584, 584, 584, 611, 975, 722, 722, 722,
    722, 667, 611, 778, 722, 278, 556, 722, 611, 833, 722, 778,
    667, 778, 722, 667, 611, 722, 667, 944, 667, 667, 611, 333,
    278, 333, 584, 556, 333, 556, 611, 556, 611, 556, 333, 611,
    611, 278, 278, 556, 278, 889, 611, 611, 611, 611, 389, 556,
    333, 611, 556, 778, 556, 556, 500, 389, 280, 389, 584,
];

#[derive(Copy, Clone, PartialEq, Eq, Structural)]
pub enum Font {
    Regular,
    Bold,
}

impl Font {
    /// PDF resource name used in the content stream.
    pub open spec fn resource_spec(self) -> Seq<char> {
        match self {
            Font::Regular => "F1"@,
            Font::Bold => "F2"@,
        }
    }

    /// The advance widths of the printable ASCII characters, from the space on.
    pub open spec fn table(self) -> Seq<u16> {
        match self {
            Font::Regular => HELV@,
            Font::Bold => HELV_BOLD@,
        }
    }

    /// Advance width of `c` in thousandths of an em.
    pub open spec fn advance_spec(self, c: char) -> u16 {
        if ' ' <= c <= '~' {
            self.table()[c as int - 32]
        } else if c == '\u{2013}' {
            556  // en dash, used as the minus sign

        } else if c == '\u{2014}' {
            1000  // em dash

        } else if c == '\u{00D7}' {
            584  // multiplication sign

        } else {
            self.table()['?' as int - 32]
        }
    }

    pub fn resource(self) -> (s: &'static str)
        ensures
            s@ == self.resource_spec(),
    {
        match self {
            Font::Regular => "F1",
            Font::Bold => "F2",
        }
    }

    pub fn advance(self, c: char) -> (w: u16)
        ensures
            w == self.advance_spec(c),
    {
        let table = match self {
            Font::Regular => &HELV,
            Font::Bold => &HELV_BOLD,
        };
        if ' ' <= c && c <= '~' {
            table[(c as u32 - 32) as usize]
        } else if c == '\u{2013}' {
            556
        } else if c == '\u{2014}' {
            1000
        } else if c == '\u{00D7}' {
            584
        } else {
            table[('?' as u32 - 32) as usize]
        }
    }
}

/// Total advance of the characters of `s`, in thousandths of an em.
pub open spec fn units(f: Font, s: Seq<char>) -> int
    decreases s.len(),
{
    if s.len() == 0 {
        0
    } else {
        units(f, s.drop_last()) + f.advance_spec(s.last())
    }
}

/// Width of `text` in thousandths of an em: multiplied by the type size in
/// points and divided by 1000 it gives the width in points.
pub fn width(text: &str, font: Font) -> (w: u32)
    requires
        units(font, text@) <= u32::MAX,
    ensures
        w == units(font, text@),
{
    broadcast use vstd::string::group_string_axioms;

    let mut total: u32 = 0;
    for c in it: text.chars()
        invariant
            it.seq() == text@,
            units(font, text@) <= u32::MAX,
            total == units(font, text@.take(it.index())),
    {
        let ghost i = it.index();
        proof {
            assert(text@.take(i + 1).drop_last() == text@.take(i));
            lemma_units_prefix(font, text@, i + 1);
        }
        total = total + font.advance(c) as u32;
    }
    assert(text@.take(text@.len() as int) == text@);
    total
}

proof fn lemma_units_prefix(f: Font, s: Seq<char>, k: int)
    requires
        0 <= k <= s.len(),
    ensures
        units(f, s.take(k)) <= units(f, s),
    decreases s.len() - k,
{
    if k < s.len() {
        assert(s.drop_last().take(k) == s.take(k));
        lemma_units_prefix(f, s.drop_last(), k);
    } else {
        assert(s.take(k) == s);
    }
}

/// Every decimal digit has an advance of 556 in both fonts, so numbers of the
/// same length set to the same width: a run of `n` digits measures `556 * n`.
pub proof fn lemma_digits_same_width(f: Font, s: Seq<char>)
    requires
        forall|i: int| 0 <= i < s.len() ==> '0' <= #[trigger] s[i] <= '9',
    ensures
        units(f, s) == 556 * s.len(),
    decreases s.len(),
{
    if s.len() > 0 {
        let p = s.drop_last();
        assert forall|i: int| 0 <= i < p.len() implies '0' <= #[trigger] p[i] <= '9' by {
            assert(p[i] == s[i]);
        }
        lemma_digits_same_width(f, p);
        let c = s.last();
        assert('0' <= c <= '9');
        assert(HELV@[16] == 556 && HELV@[17] == 556 && HELV@[18] == 556 && HELV@[19] == 556
            && HELV@[20] == 556 && HELV@[21] == 556 && HELV@[22] == 556 && HELV@[23] == 556
            && HELV@[24] == 556 && HELV@[25] == 556);
        assert(HELV_BOLD@[16] == 556 && HELV_BOLD@[17] == 556 && HELV_BOLD@[18] == 556
            && HELV_BOLD@[19] == 556 && HELV_BOLD@[20] == 556 && HELV_BOLD@[21] == 556
            && HELV_BOLD@[22] == 556 && HELV_BOLD@[23] == 556 && HELV_BOLD@[24] == 556
            && HELV_BOLD@[25] == 556);
        assert(16 <= c as int - 32 <= 25);
    }
}

/// Every character has a positive advance in both faces, at most the widest
/// glyph's (`@` in Helvetica): a text is never measured as narrower than any
/// of its parts.
pub proof fn lemma_advance_positive(f: Font, c: char)
    ensures
        0 < f.advance_spec(c) <= 1015,
{
    assert(forall|i: int| 0 <= i < 95 ==> 0 < #[trigger] HELV@[i] <= 1015 && 0 < HELV_BOLD@[i]
        <= 1015);
}

/// A text is at least as wide as any text it starts with: widths only grow
/// as characters are added.
pub proof fn lemma_units_grow(f: Font, s: Seq<char>, k: int)
    requires
        0 <= k <= s.len(),
    ensures
        units(f, s.take(k)) <= units(f, s),
        k < s.len() ==> units(f, s.take(k)) < units(f, s),
    decreases s.len(),
{
    if k < s.len() {
        let p = s.drop_last();
        lemma_units_grow(f, p, k);
        assert(p.take(k) == s.take(k));
        lemma_advance_positive(f, s.last());
    } else {
        assert(s.take(k) == s);
    }
}

} // verus!
