//! A deliberately small PDF writer: enough to place text and rules on pages
//! using the two built-in Helvetica faces. No compression, no embedded fonts.
//!
//! Lengths and coordinates are fixed-point numbers in hundredths of a point,
//! which is the precision the content streams are written with.

use vstd::prelude::*;

use crate::font::{units, width, Font};
use crate::text::{decimal, digit, digit_char, push_char, push_decimal};

verus! {

/// The WinAnsiEncoding byte for `c`; `?` for characters it cannot encode.
pub open spec fn winansi_byte(c: char) -> u8 {
    if c <= '\u{007E}' {
        c as u8
    } else if c == '\u{2013}' {
        0x96
    } else if c == '\u{2014}' {
        0x97
    } else if c == '\u{2018}' {
        0x91
    } else if c == '\u{2019}' {
        0x92
    } else if c == '\u{201C}' {
        0x93
    } else if c == '\u{201D}' {
        0x94
    } else if c == '\u{2022}' {
        0x95
    } else if '\u{00A0}' <= c <= '\u{00FF}' {
        // Latin-1 maps straight through in WinAnsi above U+00A0.
        c as u8
    } else {
        0x3F
    }
}

pub open spec fn winansi(s: Seq<char>) -> Seq<u8> {
    s.map_values(|c: char| winansi_byte(c))
}

fn winansi_char(c: char) -> (b: u8)
    ensures
        b == winansi_byte(c),
{
    if c <= '\u{007E}' {
        (c as u32) as u8
    } else if c == '\u{2013}' {
        0x96
    } else if c == '\u{2014}' {
        0x97
    } else if c == '\u{2018}' {
        0x91
    } else if c == '\u{2019}' {
        0x92
    } else if c == '\u{201C}' {
        0x93
    } else if c == '\u{201D}' {
        0x94
    } else if c == '\u{2022}' {
        0x95
    } else if '\u{00A0}' <= c && c <= '\u{00FF}' {
        (c as u32) as u8
    } else {
        0x3F
    }
}

/// Encode to WinAnsiEncoding, which is what both font objects declare.
pub fn to_winansi(s: &str) -> (out: Vec<u8>)
    ensures
        out@ == winansi(s@),
{
    let mut out: Vec<u8> = Vec::new();
    broadcast use vstd::string::group_string_axioms;
    for c in it: s.chars()
        invariant
            it.seq() == s@,
            out@ == winansi(s@.take(it.index())),
    {
        out.push(winansi_char(c));
        assert(s@.take(it.index() + 1) == s@.take(it.index()).push(c));
    }
    assert(s@.take(s@.len() as int) == s@);
    out
}

/// Digits after the decimal point of a fraction of `f` hundredths, trailing
/// zeros removed, with the point itself only when a digit remains.
pub open spec fn fraction(f: nat) -> Seq<char> {
    if f == 0 {
        Seq::empty()
    } else if f % 10 == 0 {
        seq!['.', digit_char(f / 10)]
    } else {
        seq!['.', digit_char(f / 10), digit_char(f % 10)]
    }
}

/// A number of hundredths `v` as a content stream writes it: at most two
/// decimals, trailing zeros and a bare point dropped, no exponent, and no
/// sign on zero.
pub open spec fn number(v: int) -> Seq<char> {
    let m: nat = if v < 0 {
        (-v) as nat
    } else {
        v as nat
    };
    let body = decimal(m / 100) + fraction(m % 100);
    if v < 0 {
        seq!['-'] + body
    } else {
        body
    }
}

/// Appends `number(v)`.
pub fn push_number(s: &mut String, v: i64)
    ensures
        final(s)@ == old(s)@ + number(v as int),
{
    let m: u64 = if v < 0 {
        (0i128 - (v as i128)) as u64
    } else {
        v as u64
    };
    if v < 0 {
        push_char(s, '-');
    }
    push_decimal(s, m / 100);
    let f = m % 100;
    if f != 0 {
        push_char(s, '.');
        push_char(s, digit(f / 10));
        if f % 10 != 0 {
            push_char(s, digit(f % 10));
        }
    }
}

/// Format a number for a content stream: trimmed to 2 decimals, no exponent.
pub fn num(v: i64) -> (s: String)
    ensures
        s@ == number(v as int),
{
    let mut s = String::new();
    push_number(&mut s, v);
    s
}

pub open spec fn escape_char(c: char) -> Seq<char> {
    if c == '(' || c == ')' || c == '\\' {
        seq!['\\', c]
    } else {
        seq![c]
    }
}

/// `s` with a backslash before each parenthesis and backslash, as a PDF
/// literal string needs.
pub open spec fn escaped(s: Seq<char>) -> Seq<char>
    decreases s.len(),
{
    if s.len() == 0 {
        Seq::empty()
    } else {
        escaped(s.drop_last()) + escape_char(s.last())
    }
}

/// Appends `escaped(text@)`.
fn push_escaped(out: &mut String, text: &str)
    ensures
        final(out)@ == old(out)@ + escaped(text@),
{
    broadcast use vstd::string::group_string_axioms;

    let ghost start = out@;
    for c in it: text.chars()
        invariant
            it.seq() == text@,
            out@ == start + escaped(text@.take(it.index())),
    {
        let ghost i = it.index();
        if c == '(' || c == ')' || c == '\\' {
            push_char(out, '\\');
        }
        push_char(out, c);
        assert(text@.take(i + 1).drop_last() == text@.take(i));
    }
    assert(text@.take(text@.len() as int) == text@);
}

pub fn escape(text: &str) -> (out: String)
    ensures
        out@ == escaped(text@),
{
    let mut out = String::new();
    push_escaped(&mut out, text);
    out
}

/// `n / d` rounded to the nearest integer, halves away from minus infinity.
pub open spec fn round_div(n: int, d: int) -> int {
    (2 * n + d) / (2 * d)
}

/// Left edge, in hundredths, of `text` set at `size` with its right edge at `x`.
pub open spec fn right_aligned(text: Seq<char>, f: Font, size: int, x: int) -> int {
    round_div(1000 * x - units(f, text) * size, 1000)
}

/// Left edge, in hundredths, of `text` set at `size` centred on `x`.
pub open spec fn centred(text: Seq<char>, f: Font, size: int, x: int) -> int {
    round_div(2000 * x - units(f, text) * size, 2000)
}

pub open spec fn gray_op(g: int) -> Seq<char> {
    number(g) + " g\n"@
}

pub open spec fn text_op(text: Seq<char>, f: Font, size: int, x: int, y: int) -> Seq<char> {
    "BT /"@ + f.resource_spec() + " "@ + number(size) + " Tf "@ + number(x) + " "@ + number(y)
        + " Td ("@ + escaped(text) + ") Tj ET\n"@
}

pub open spec fn line_op(x1: int, y1: int, x2: int, y2: int, weight: int, gray: int) -> Seq<
    char,
> {
    number(gray) + " G "@ + number(weight) + " w "@ + number(x1) + " "@ + number(y1) + " m "@
        + number(x2) + " "@ + number(y2) + " l S\n"@
}

/// The page currently being drawn: its content stream.
pub struct Page {
    content: String,
}

impl View for Page {
    type V = Seq<char>;

    closed spec fn view(&self) -> Seq<char> {
        self.content@
    }
}

impl Page {
    /// Set the fill (text) colour as a gray level in hundredths, 0 = black,
    /// 100 = white.
    pub fn fill_gray(&mut self, g: i64)
        ensures
            final(self)@ == old(self)@ + gray_op(g as int),
    {
        push_number(&mut self.content, g);
        self.content.append(" g\n");
    }

    /// Draw `text` with its left edge at `x` and its baseline at `y`.
    pub fn text(&mut self, text: &str, f: Font, size: i64, x: i64, y: i64)
        ensures
            final(self)@ == old(self)@ + text_op(text@, f, size as int, x as int, y as int),
    {
        let c = &mut self.content;
        c.append("BT /");
        c.append(f.resource());
        c.append(" ");
        push_number(c, size);
        c.append(" Tf ");
        push_number(c, x);
        c.append(" ");
        push_number(c, y);
        c.append(" Td (");
        push_escaped(c, text);
        c.append(") Tj ET\n");
    }

    /// Draw `text` with its right edge at `x`.
    pub fn text_right(&mut self, text: &str, f: Font, size: i64, x: i64, y: i64)
        requires
            units(f, text@) <= u32::MAX,
            i64::MIN <= right_aligned(text@, f, size as int, x as int) <= i64::MAX,
        ensures
            final(self)@ == old(self)@ + text_op(
                text@,
                f,
                size as int,
                right_aligned(text@, f, size as int, x as int),
                y as int,
            ),
    {
        let w = width(text, f);
        proof {
            lemma_product_bound(w as int, size as int);
        }
        let left = round_div_exec(1000 * (x as i128) - (w as i128) * (size as i128), 1000);
        self.text(text, f, size, left as i64, y);
    }

    /// Draw `text` centred on `x`.
    pub fn text_centre(&mut self, text: &str, f: Font, size: i64, x: i64, y: i64)
        requires
            units(f, text@) <= u32::MAX,
            i64::MIN <= centred(text@, f, size as int, x as int) <= i64::MAX,
        ensures
            final(self)@ == old(self)@ + text_op(
                text@,
                f,
                size as int,
                centred(text@, f, size as int, x as int),
                y as int,
            ),
    {
        let w = width(text, f);
        proof {
            lemma_product_bound(w as int, size as int);
        }
        let left = round_div_exec(2000 * (x as i128) - (w as i128) * (size as i128), 2000);
        self.text(text, f, size, left as i64, y);
    }

    /// Stroke a rule from `(x1, y1)` to `(x2, y2)` of the given weight and gray.
    pub fn line(&mut self, x1: i64, y1: i64, x2: i64, y2: i64, weight: i64, gray: i64)
        ensures
            final(self)@ == old(self)@ + line_op(
                x1 as int,
                y1 as int,
                x2 as int,
                y2 as int,
                weight as int,
                gray as int,
            ),
    {
        let mut op = String::new();
        push_number(&mut op, gray);
        assert(op@ == number(gray as int));
        op.append(" G ");
        push_number(&mut op, weight);
        op.append(" w ");
        push_number(&mut op, x1);
        op.append(" ");
        push_number(&mut op, y1);
        op.append(" m ");
        push_number(&mut op, x2);
        op.append(" ");
        push_number(&mut op, y2);
        op.append(" l S\n");
        self.content.append(&op);
    }
}

proof fn lemma_product_bound(w: int, size: int)
    requires
        0 <= w <= u32::MAX,
        i64::MIN <= size <= i64::MAX,
    ensures
        -0x8000_0000_0000_0000_0000_0000int <= w * size <= 0x8000_0000_0000_0000_0000_0000int,
{
    assert(-0x8000_0000_0000_0000_0000_0000int <= w * size <= 0x8000_0000_0000_0000_0000_0000int)
        by (nonlinear_arith)
        requires
            0 <= w <= 0xFFFF_FFFF,
            -0x8000_0000_0000_0000 <= size <= 0x7FFF_FFFF_FFFF_FFFF,
    ;
}

fn round_div_exec(n: i128, d: i128) -> (r: i128)
    requires
        1 <= d <= 2000,
        -0x1_0000_0000_0000_0000_0000_0000 <= n <= 0x1_0000_0000_0000_0000_0000_0000,
    ensures
        r == round_div(n as int, d as int),
{
    let q = 2 * n + d;
    proof {
        let qi = q as int;
        let di = 2 * d as int;
        assert(-0x4_0000_0000_0000_0000_0000_0000 <= qi / di <= 0x4_0000_0000_0000_0000_0000_0000)
            by (nonlinear_arith)
            requires
                -0x4_0000_0000_0000_0000_0000_0000 <= qi <= 0x4_0000_0000_0000_0000_0000_0000,
                2 <= di,
        ;
    }
    match q.checked_div_euclid(2 * d) {
        Some(t) => t,
        None => 0,
    }
}

/// `s` as one byte per character: the low eight bits of each code point.
/// Every string the file structure is written with is ASCII.
pub open spec fn ascii(s: Seq<char>) -> Seq<u8> {
    s.map_values(|c: char| (c as u32) as u8)
}

/// Appends `ascii(s@)`.
fn push_ascii(out: &mut Vec<u8>, s: &str)
    ensures
        final(out)@ == old(out)@ + ascii(s@),
{
    broadcast use vstd::string::group_string_axioms;

    let ghost start = out@;
    for c in it: s.chars()
        invariant
            it.seq() == s@,
            out@ == start + ascii(s@.take(it.index())),
    {
        let ghost i = it.index();
        out.push((c as u32) as u8);
        assert(ascii(s@.take(i + 1)) == ascii(s@.take(i)).push((c as u32) as u8));
    }
    assert(s@.take(s@.len() as int) == s@);
}

/// The file header, with a comment of high bytes that marks the file as
/// binary for transfer tools.
pub open spec fn header() -> Seq<u8> {
    ascii("%PDF-1.4\n"@) + seq![0x25u8, 0xE2u8, 0xE3u8, 0xCFu8, 0xD3u8, 0x0Au8]
}

/// Indirect object `id` with the given body.
pub open spec fn object(id: nat, body: Seq<u8>) -> Seq<u8> {
    ascii(decimal(id) + " 0 obj\n"@) + body + ascii("\nendobj\n"@)
}

/// Object id of the page dictionary of page `i` (counted from 0).
pub open spec fn page_obj(i: nat) -> nat {
    5 + 2 * i
}

/// Object id of the content stream of page `i` (counted from 0).
pub open spec fn content_obj(i: nat) -> nat {
    6 + 2 * i
}

/// Number of objects in a file of `n` pages: catalog, page tree, two fonts,
/// then a page dictionary and a content stream per page.
pub open spec fn total_objs(n: nat) -> nat {
    4 + 2 * n
}

/// References to the page dictionaries of the first `n` pages.
pub open spec fn kids(n: nat) -> Seq<char>
    decreases n,
{
    if n == 0 {
        Seq::empty()
    } else {
        kids((n - 1) as nat) + decimal(page_obj((n - 1) as nat)) + " 0 R "@
    }
}

pub open spec fn catalog_dict() -> Seq<char> {
    "<< /Type /Catalog /Pages 2 0 R >>"@
}

pub open spec fn pages_dict(n: nat) -> Seq<char> {
    "<< /Type /Pages /Count "@ + decimal(n) + " /Kids [ "@ + kids(n) + "] >>"@
}

pub open spec fn regular_font_dict() -> Seq<char> {
    "<< /Type /Font /Subtype /Type1 /BaseFont /Helvetica /Encoding /WinAnsiEncoding >>"@
}

pub open spec fn bold_font_dict() -> Seq<char> {
    "<< /Type /Font /Subtype /Type1 /BaseFont /Helvetica-Bold /Encoding /WinAnsiEncoding >>"@
}

pub open spec fn page_dict(width: int, height: int, i: nat) -> Seq<char> {
    "<< /Type /Page /Parent 2 0 R /MediaBox [ 0 0 "@ + number(width) + " "@ + number(height)
        + " ] /Resources << /Font << /F1 3 0 R /F2 4 0 R >> >> /Contents "@ + decimal(
        content_obj(i),
    ) + " 0 R >>"@
}

/// A content stream's body: its length, then its bytes.
pub open spec fn stream_body(bytes: Seq<u8>) -> Seq<u8> {
    ascii("<< /Length "@ + decimal(bytes.len()) + " >>\nstream\n"@) + bytes + ascii(
        "\nendstream"@,
    )
}

/// The body of object `id` of a file with the given media box and page contents.
pub open spec fn object_body(width: int, height: int, contents: Seq<Seq<char>>, id: nat) -> Seq<
    u8,
> {
    if id == 1 {
        ascii(catalog_dict())
    } else if id == 2 {
        ascii(pages_dict(contents.len()))
    } else if id == 3 {
        ascii(regular_font_dict())
    } else if id == 4 {
        ascii(bold_font_dict())
    } else if (id - 5) % 2 == 0 {
        ascii(page_dict(width, height, ((id - 5) / 2) as nat))
    } else {
        stream_body(winansi(contents[(id - 6) / 2]))
    }
}

/// All objects of the file, object `id` at index `id - 1`.
pub open spec fn objects(width: int, height: int, contents: Seq<Seq<char>>) -> Seq<Seq<u8>> {
    Seq::new(
        total_objs(contents.len()),
        |k: int| object((k + 1) as nat, object_body(width, height, contents, (k + 1) as nat)),
    )
}

/// The parts joined in order.
pub open spec fn concat(parts: Seq<Seq<u8>>) -> Seq<u8>
    decreases parts.len(),
{
    if parts.len() == 0 {
        Seq::empty()
    } else {
        concat(parts.drop_last()) + parts.last()
    }
}

/// Byte position at which object `id` starts.
pub open spec fn offset(width: int, height: int, contents: Seq<Seq<char>>, id: nat) -> nat {
    header().len() + concat(objects(width, height, contents).take(id - 1)).len()
}

/// `decimal(n)` padded on the left with zeros to at least `w` characters.
pub open spec fn padded(n: nat, w: nat) -> Seq<char> {
    let d = decimal(n);
    if d.len() < w {
        Seq::new((w - d.len()) as nat, |i: int| '0') + d
    } else {
        d
    }
}

pub open spec fn xref_entry(off: nat) -> Seq<u8> {
    ascii(padded(off, 10) + " 00000 n \n"@)
}

/// Header and objects: everything before the cross-reference table.
pub open spec fn file_body(width: int, height: int, contents: Seq<Seq<char>>) -> Seq<u8> {
    header() + concat(objects(width, height, contents))
}

pub open spec fn xref_table(width: int, height: int, contents: Seq<Seq<char>>) -> Seq<u8> {
    let total = total_objs(contents.len());
    ascii("xref\n0 "@ + decimal(total + 1) + "\n"@) + ascii("0000000000 65535 f \n"@) + concat(
        Seq::new(total, |k: int| xref_entry(offset(width, height, contents, (k + 1) as nat))),
    )
}

pub open spec fn trailer(total: nat, startxref: nat) -> Seq<u8> {
    ascii(
        "trailer\n<< /Size "@ + decimal(total + 1) + " /Root 1 0 R >>\nstartxref\n"@ + decimal(
            startxref,
        ) + "\n%%EOF\n"@,
    )
}

/// The whole file for a media box of `width` by `height` hundredths of a point
/// and the given page content streams.
pub open spec fn pdf_file(width: int, height: int, contents: Seq<Seq<char>>) -> Seq<u8> {
    let body = file_body(width, height, contents);
    body + xref_table(width, height, contents) + trailer(
        total_objs(contents.len()),
        body.len(),
    )
}

pub struct Pdf {
    width: i64,
    height: i64,
    pages: Vec<Page>,
}

impl View for Pdf {
    /// Media box width and height, in hundredths of a point, and the content
    /// stream of each page.
    type V = (i64, i64, Seq<Seq<char>>);

    closed spec fn view(&self) -> (i64, i64, Seq<Seq<char>>) {
        (self.width, self.height, self.pages@.map_values(|p: Page| p@))
    }
}

impl Pdf {
    pub fn new(width: i64, height: i64) -> (pdf: Pdf)
        ensures
            pdf@ == (width, height, Seq::<Seq<char>>::empty()),
    {
        let pdf = Pdf { width, height, pages: Vec::new() };
        assert(pdf@.2 == Seq::<Seq<char>>::empty());
        pdf
    }

    pub fn width(&self) -> (w: i64)
        ensures
            w == self@.0,
    {
        self.width
    }

    pub fn height(&self) -> (h: i64)
        ensures
            h == self@.1,
    {
        self.height
    }

    /// Begin a new page and return a handle for drawing on it.
    pub fn page(&mut self) -> (page: &mut Page)
        ensures
            page@ == Seq::<char>::empty(),
            final(self)@ == (old(self)@.0, old(self)@.1, old(self)@.2.push((*final(page))@)),
    {
        let n = self.pages.len();
        self.pages.push(Page { content: String::new() });
        &mut self.pages[n]
    }
}

proof fn lemma_concat_step(parts: Seq<Seq<u8>>, k: int)
    requires
        0 <= k < parts.len(),
    ensures
        concat(parts.take(k + 1)) == concat(parts.take(k)) + parts[k],
{
    assert(parts.take(k + 1).drop_last() == parts.take(k));
}

proof fn lemma_concat_all(parts: Seq<Seq<u8>>)
    ensures
        concat(parts.take(parts.len() as int)) == concat(parts),
{
    assert(parts.take(parts.len() as int) == parts);
}

/// Appends object `id` with the given body.
fn push_object(out: &mut Vec<u8>, id: usize, body: &mut Vec<u8>)
    ensures
        final(out)@ == old(out)@ + object(id as nat, old(body)@),
{
    let mut s = String::new();
    push_decimal(&mut s, id as u64);
    s.append(" 0 obj\n");
    push_ascii(out, s.as_str());
    out.append(body);
    push_ascii(out, "\nendobj\n");
}

/// Appends `padded(n, w)`.
fn push_padded(s: &mut String, n: u64, w: usize)
    ensures
        final(s)@ == old(s)@ + padded(n as nat, w as nat),
{
    let mut d = String::new();
    push_decimal(&mut d, n);
    let len = d.as_str().unicode_len();
    if len < w {
        let ghost start = s@;
        let mut k: usize = len;
        while k < w
            invariant
                len <= k <= w,
                s@ == start + Seq::new((k - len) as nat, |i: int| '0'),
            decreases w - k,
        {
            push_char(s, '0');
            k = k + 1;
            assert(Seq::new((k - len) as nat, |i: int| '0') == Seq::new(
                (k - 1 - len) as nat,
                |i: int| '0',
            ).push('0'));
        }
    }
    s.append(d.as_str());
}

impl Pdf {
    /// The bytes of the body of object `id`.
    fn object_body_bytes(&self, id: usize) -> (b: Vec<u8>)
        requires
            1 <= id <= total_objs(self@.2.len()),
            2 * self@.2.len() + 5 <= usize::MAX,
        ensures
            b@ == object_body(self@.0 as int, self@.1 as int, self@.2, id as nat),
    {
        let n = self.pages.len();
        let mut b: Vec<u8> = Vec::new();
        if id == 1 {
            push_ascii(&mut b, "<< /Type /Catalog /Pages 2 0 R >>");
        } else if id == 2 {
            let mut s = String::new();
            s.append("<< /Type /Pages /Count ");
            push_decimal(&mut s, n as u64);
            s.append(" /Kids [ ");
            let ghost start = s@;
            for i in 0..n
                invariant
                    2 * n + 5 <= usize::MAX,
                    s@ == start + kids(i as nat),
            {
                push_decimal(&mut s, 5 + 2 * (i as u64));
                s.append(" 0 R ");
            }
            s.append("] >>");
            push_ascii(&mut b, s.as_str());
        } else if id == 3 {
            push_ascii(
                &mut b,
                "<< /Type /Font /Subtype /Type1 /BaseFont /Helvetica /Encoding /WinAnsiEncoding >>",
            );
        } else if id == 4 {
            push_ascii(
                &mut b,
                "<< /Type /Font /Subtype /Type1 /BaseFont /Helvetica-Bold /Encoding /WinAnsiEncoding >>",
            );
        } else if (id - 5) % 2 == 0 {
            let i = (id - 5) / 2;
            let mut s = String::new();
            s.append("<< /Type /Page /Parent 2 0 R /MediaBox [ 0 0 ");
            push_number(&mut s, self.width);
            s.append(" ");
            push_number(&mut s, self.height);
            s.append(" ] /Resources << /Font << /F1 3 0 R /F2 4 0 R >> >> /Contents ");
            push_decimal(&mut s, 6 + 2 * (i as u64));
            s.append(" 0 R >>");
            push_ascii(&mut b, s.as_str());
        } else {
            // Content streams carry WinAnsi bytes.
            let i = (id - 6) / 2;
            let mut bytes = to_winansi(self.pages[i].content.as_str());
            let mut s = String::new();
            s.append("<< /Length ");
            push_decimal(&mut s, bytes.len() as u64);
            s.append(" >>\nstream\n");
            push_ascii(&mut b, s.as_str());
            b.append(&mut bytes);
            push_ascii(&mut b, "\nendstream");
        }
        b
    }

    /// The complete file.
    pub fn render(&self) -> (out: Vec<u8>)
        requires
            2 * self@.2.len() + 5 <= usize::MAX,
        ensures
            out@ == pdf_file(self@.0 as int, self@.1 as int, self@.2),
    {
        let ghost w = self@.0 as int;
        let ghost h = self@.1 as int;
        let ghost contents = self@.2;
        let ghost objs = objects(w, h, contents);
        let n = self.pages.len();
        let total = 4 + 2 * n;

        let mut out: Vec<u8> = Vec::new();
        push_ascii(&mut out, "%PDF-1.4\n");
        out.push(0x25);
        out.push(0xE2);
        out.push(0xE3);
        out.push(0xCF);
        out.push(0xD3);
        out.push(0x0A);
        assert(out@ == header());

        let mut offsets: Vec<usize> = Vec::new();
        let mut id: usize = 1;
        while id <= total
            invariant
                n == contents.len(),
                total == total_objs(n as nat),
                objs == objects(w, h, contents),
                w == self@.0 as int,
                h == self@.1 as int,
                contents == self@.2,
                2 * n + 5 <= usize::MAX,
                1 <= id <= total + 1,
                out@ == header() + concat(objs.take(id - 1)),
                offsets@.len() == id - 1,
                forall|j: int| 0 <= j < id - 1 ==> #[trigger] offsets@[j] == offset(w, h, contents, (j + 1) as nat),
            decreases total + 1 - id,
        {
            offsets.push(out.len());
            let mut body = self.object_body_bytes(id);
            push_object(&mut out, id, &mut body);
            proof {
                lemma_concat_step(objs, id - 1);
            }
            id = id + 1;
        }
        proof {
            lemma_concat_all(objs);
        }
        assert(out@ == file_body(w, h, contents));

        let startxref = out.len();
        let mut s = String::new();
        s.append("xref\n0 ");
        push_decimal(&mut s, (total + 1) as u64);
        s.append("\n");
        push_ascii(&mut out, s.as_str());
        push_ascii(&mut out, "0000000000 65535 f \n");
        let ghost entries = Seq::new(
            total as nat,
            |k: int| xref_entry(offset(w, h, contents, (k + 1) as nat)),
        );
        let ghost before = out@;
        for k in 0..total
            invariant
                total == total_objs(contents.len()),
                entries == Seq::new(
                    total as nat,
                    |k: int| xref_entry(offset(w, h, contents, (k + 1) as nat)),
                ),
                offsets@.len() == total,
                forall|j: int| 0 <= j < total ==> #[trigger] offsets@[j] == offset(w, h, contents, (j + 1) as nat),
                out@ == before + concat(entries.take(k as int)),
        {
            let mut e = String::new();
            push_padded(&mut e, offsets[k] as u64, 10);
            e.append(" 00000 n \n");
            push_ascii(&mut out, e.as_str());
            proof {
                lemma_concat_step(entries, k as int);
            }
        }
        proof {
            lemma_concat_all(entries);
        }

        let mut t = String::new();
        t.append("trailer\n<< /Size ");
        push_decimal(&mut t, (total + 1) as u64);
        t.append(" /Root 1 0 R >>\nstartxref\n");
        push_decimal(&mut t, startxref as u64);
        t.append("\n%%EOF\n");
        push_ascii(&mut out, t.as_str());
        out
    }
}

proof fn lemma_concat_prefix(parts: Seq<Seq<u8>>, j: int)
    requires
        0 <= j <= parts.len(),
    ensures
        concat(parts.take(j)).len() <= concat(parts).len(),
        concat(parts).subrange(0, concat(parts.take(j)).len() as int) == concat(parts.take(j)),
    decreases parts.len() - j,
{
    if j == parts.len() {
        lemma_concat_all(parts);
    } else {
        lemma_concat_prefix(parts, j + 1);
        lemma_concat_step(parts, j);
        let a = concat(parts.take(j));
        let b = concat(parts.take(j + 1));
        assert(b.subrange(0, a.len() as int) == a);
        assert(concat(parts).subrange(0, a.len() as int) == b.subrange(0, a.len() as int));
    }
}

/// Part `k` sits in the joined sequence right after the parts before it.
proof fn lemma_concat_part(parts: Seq<Seq<u8>>, k: int)
    requires
        0 <= k < parts.len(),
    ensures
        ({
            let start = concat(parts.take(k)).len() as int;
            &&& start + parts[k].len() <= concat(parts).len()
            &&& concat(parts).subrange(start, start + parts[k].len()) == parts[k]
        }),
{
    lemma_concat_prefix(parts, k + 1);
    lemma_concat_step(parts, k);
    let start = concat(parts.take(k)).len() as int;
    let b = concat(parts.take(k + 1));
    assert(b.subrange(start, start + parts[k].len()) == parts[k]);
    assert(concat(parts).subrange(start, start + parts[k].len()) == b.subrange(
        start,
        start + parts[k].len(),
    ));
}

proof fn lemma_concat_uniform(parts: Seq<Seq<u8>>, k: int, size: nat)
    requires
        0 <= k <= parts.len(),
        forall|i: int| 0 <= i < k ==> (#[trigger] parts[i]).len() == size,
    ensures
        concat(parts.take(k)).len() == k * size,
    decreases k,
{
    if k > 0 {
        lemma_concat_uniform(parts, k - 1, size);
        lemma_concat_step(parts, k - 1);
        assert((k - 1) * size + size == k * size) by (nonlinear_arith);
    } else {
        assert(parts.take(0) =~= Seq::<Seq<u8>>::empty());
    }
}

pub open spec fn pow10(k: nat) -> nat
    decreases k,
{
    if k == 0 {
        1
    } else {
        10 * pow10((k - 1) as nat)
    }
}

proof fn lemma_decimal_len(n: nat, k: nat)
    requires
        1 <= k,
        n < pow10(k),
    ensures
        decimal(n).len() <= k,
    decreases k,
{
    if n >= 10 {
        assert(k > 1) by {
            if k == 1 {
                assert(pow10(1) == 10) by {
                    reveal_with_fuel(pow10, 2);
                }
            }
        }
        assert(n / 10 < pow10((k - 1) as nat));
        lemma_decimal_len(n / 10, (k - 1) as nat);
    }
}

proof fn lemma_xref_entry_len(off: nat)
    requires
        off < pow10(10),
    ensures
        xref_entry(off).len() == 20,
{
    lemma_decimal_len(off, 10);
    reveal_strlit(" 00000 n \n");
}

/// Where the cross-reference table starts: right after the last object.
pub open spec fn startxref(width: int, height: int, contents: Seq<Seq<char>>) -> nat {
    file_body(width, height, contents).len()
}

/// Where the entry of object `id` in the cross-reference table starts, when
/// every entry is 20 bytes long.
pub open spec fn entry_position(width: int, height: int, contents: Seq<Seq<char>>, id: nat) -> int {
    let total = total_objs(contents.len());
    (startxref(width, height, contents) + ascii("xref\n0 "@ + decimal(total + 1) + "\n"@).len()
        + 20 * id) as int
}

proof fn lemma_object_in_place(width: int, height: int, contents: Seq<Seq<char>>, id: nat)
    requires
        1 <= id <= total_objs(contents.len()),
    ensures
        ({
            let file = pdf_file(width, height, contents);
            let o = offset(width, height, contents, id);
            let head = ascii(decimal(id) + " 0 obj\n"@);
            &&& o + head.len() <= startxref(width, height, contents)
            &&& file.subrange(o as int, (o + head.len()) as int) == head
        }),
{
    let objs = objects(width, height, contents);
    let file = pdf_file(width, height, contents);
    let body = file_body(width, height, contents);
    let k = id - 1;
    let o = offset(width, height, contents, id);
    let head = ascii(decimal(id) + " 0 obj\n"@);
    lemma_concat_part(objs, k);
    let obj = objs[k];
    assert(obj.subrange(0, head.len() as int) == head);
    let hl = header().len() as int;
    let start = concat(objs.take(k)).len() as int;
    assert(body.subrange(hl + start, hl + start + obj.len()) == concat(objs).subrange(
        start,
        start + obj.len(),
    ));
    assert(file.subrange(0, body.len() as int) == body);
    assert(file.subrange(o as int, (o + head.len()) as int) == body.subrange(
        o as int,
        (o + head.len()) as int,
    ));
}

proof fn lemma_table_and_trailer(width: int, height: int, contents: Seq<Seq<char>>)
    ensures
        ({
            let file = pdf_file(width, height, contents);
            let x = startxref(width, height, contents);
            let tr = trailer(total_objs(contents.len()), x);
            &&& x + 5 <= file.len()
            &&& file.subrange(x as int, (x + 5) as int) == ascii("xref\n"@)
            &&& tr.len() <= file.len()
            &&& file.subrange(file.len() - tr.len(), file.len() as int) == tr
        }),
{
    let total = total_objs(contents.len());
    let file = pdf_file(width, height, contents);
    let body = file_body(width, height, contents);
    let x = body.len();
    let table = xref_table(width, height, contents);
    let first = ascii("xref\n0 "@ + decimal(total + 1) + "\n"@);
    reveal_strlit("xref\n0 ");
    reveal_strlit("xref\n");
    assert(first.subrange(0, 5) == ascii("xref\n"@));
    assert(table.subrange(0, 5) == first.subrange(0, 5));
    assert(file.subrange(x as int, (x + 5) as int) == table.subrange(0, 5));
    let tr = trailer(total, x);
    assert(file.subrange(file.len() - tr.len(), file.len() as int) == tr);
}

proof fn lemma_entry_in_place(width: int, height: int, contents: Seq<Seq<char>>, id: nat)
    requires
        1 <= id <= total_objs(contents.len()),
        startxref(width, height, contents) < pow10(10),
    ensures
        ({
            let file = pdf_file(width, height, contents);
            let e = entry_position(width, height, contents, id);
            &&& e + 20 <= file.len()
            &&& file.subrange(e, e + 20) == xref_entry(offset(width, height, contents, id))
        }),
{
    let objs = objects(width, height, contents);
    let total = total_objs(contents.len());
    let file = pdf_file(width, height, contents);
    let body = file_body(width, height, contents);
    let x = body.len();
    let k = id - 1;
    let table = xref_table(width, height, contents);
    let first = ascii("xref\n0 "@ + decimal(total + 1) + "\n"@);
    let entries = Seq::new(
        total,
        |j: int| xref_entry(offset(width, height, contents, (j + 1) as nat)),
    );
    assert forall|j: int| 0 <= j < total implies (#[trigger] entries[j]).len() == 20 by {
        lemma_concat_prefix(objs, j);
        lemma_xref_entry_len(offset(width, height, contents, (j + 1) as nat));
    }
    lemma_concat_uniform(entries, k, 20);
    lemma_concat_part(entries, k);
    let free = ascii("0000000000 65535 f \n"@);
    assert(free.len() == 20) by {
        reveal_strlit("0000000000 65535 f \n");
    }
    assert(table == first + free + concat(entries));
    let e = entry_position(width, height, contents, id);
    let within = first.len() + 20 + 20 * k;
    assert(table.subrange(within, within + 20) == entries[k]);
    assert(file.subrange(e, e + 20) == table.subrange(within, within + 20));
}

/// In the file `render` writes, the cross-reference data find the objects:
/// object `id` starts at `offset(id)` with its header `id 0 obj`; the table
/// starts at the position that the trailer gives after `startxref`, with the
/// keyword `xref`; the trailer ends the file; and, while the file before the
/// table is shorter than 10^10 bytes, every entry is exactly 20 bytes long, so
/// that the entry of object `id` is found at `entry_position(id)` and records
/// `offset(id)`.
pub proof fn lemma_xref_finds_objects(width: int, height: int, contents: Seq<Seq<char>>, id: nat)
    requires
        1 <= id <= total_objs(contents.len()),
    ensures
        ({
            let file = pdf_file(width, height, contents);
            let o = offset(width, height, contents, id);
            let head = ascii(decimal(id) + " 0 obj\n"@);
            let x = startxref(width, height, contents);
            let tr = trailer(total_objs(contents.len()), x);
            &&& o + head.len() <= x
            &&& file.subrange(o as int, (o + head.len()) as int) == head
            &&& x + 5 <= file.len()
            &&& file.subrange(x as int, (x + 5) as int) == ascii("xref\n"@)
            &&& tr.len() <= file.len()
            &&& file.subrange(file.len() - tr.len(), file.len() as int) == tr
            &&& x < pow10(10) ==> {
                let e = entry_position(width, height, contents, id);
                &&& e + 20 <= file.len()
                &&& file.subrange(e, e + 20) == xref_entry(o)
            }
        }),
{
    lemma_object_in_place(width, height, contents, id);
    lemma_table_and_trailer(width, height, contents);
    if startxref(width, height, contents) < pow10(10) {
        lemma_entry_in_place(width, height, contents, id);
    }
}

/// The whole of object `id` sits at `offset(id)` in the file.
proof fn lemma_object_bytes(width: int, height: int, contents: Seq<Seq<char>>, id: nat)
    requires
        1 <= id <= total_objs(contents.len()),
    ensures
        ({
            let file = pdf_file(width, height, contents);
            let o = offset(width, height, contents, id);
            let obj = object(id, object_body(width, height, contents, id));
            &&& o + obj.len() <= file.len()
            &&& file.subrange(o as int, (o + obj.len()) as int) == obj
        }),
{
    let objs = objects(width, height, contents);
    let file = pdf_file(width, height, contents);
    let body = file_body(width, height, contents);
    let k = id - 1;
    lemma_concat_part(objs, k);
    let obj = objs[k];
    let hl = header().len() as int;
    let start = concat(objs.take(k)).len() as int;
    assert(body.subrange(hl + start, hl + start + obj.len()) == concat(objs).subrange(
        start,
        start + obj.len(),
    ));
    assert(file.subrange(0, body.len() as int) == body);
    assert(file.subrange(hl + start, hl + start + obj.len()) == body.subrange(
        hl + start,
        hl + start + obj.len(),
    ));
}

/// The rendered file holds the page tree with the count of pages and a
/// reference to each page dictionary in order; for page `i`, a page
/// dictionary with the media box and a reference to its content stream; and
/// that stream, which is the page's content in WinAnsi, one byte for each
/// character, with its length.
pub proof fn lemma_pages_in_file(width: int, height: int, contents: Seq<Seq<char>>, i: nat)
    requires
        i < contents.len(),
    ensures
        ({
            let file = pdf_file(width, height, contents);
            let n = contents.len();
            let tree = object(2, ascii(pages_dict(n)));
            let o2 = offset(width, height, contents, 2);
            let dict = object(page_obj(i), ascii(page_dict(width, height, i)));
            let od = offset(width, height, contents, page_obj(i));
            let bytes = winansi(contents[i as int]);
            let stream = object(content_obj(i), stream_body(bytes));
            let os = offset(width, height, contents, content_obj(i));
            &&& kids(i + 1) == kids(i) + decimal(page_obj(i)) + " 0 R "@
            &&& file.subrange(o2 as int, (o2 + tree.len()) as int) == tree
            &&& file.subrange(od as int, (od + dict.len()) as int) == dict
            &&& file.subrange(os as int, (os + stream.len()) as int) == stream
            &&& bytes.len() == contents[i as int].len()
        }),
{
    lemma_object_bytes(width, height, contents, 2);
    lemma_object_bytes(width, height, contents, page_obj(i));
    lemma_object_bytes(width, height, contents, content_obj(i));
    assert((page_obj(i) - 5) % 2 == 0 && (page_obj(i) - 5) / 2 == i);
    assert((content_obj(i) - 5) % 2 == 1 && (content_obj(i) - 6) / 2 == i);
}

proof fn lemma_decimal_shape(n: nat)
    ensures
        decimal(n).len() >= 1,
        forall|i: int| 0 <= i < decimal(n).len() ==> '0' <= #[trigger] decimal(n)[i] <= '9',
        decimal(n) == seq!['0'] ==> n == 0,
    decreases n,
{
    if n >= 10 {
        lemma_decimal_shape(n / 10);
        let p = decimal(n / 10);
        assert forall|i: int| 0 <= i < decimal(n).len() implies '0' <= #[trigger] decimal(n)[i]
            <= '9' by {
            if i < p.len() {
                assert(decimal(n)[i] == p[i]);
            }
        }
        assert(decimal(n).len() >= 2);
    } else if decimal(n) == seq!['0'] {
        assert(decimal(n)[0] == digit_char(n));
        assert(digit_char(n) == '0');
        assert((48 + n) as char == '0');
    }
}

/// How a number is written in a content stream: digits, with a minus sign
/// first exactly when the number is negative, and at most one point; never
/// `-0`; after a point one or two digits, the last of them not zero.
pub proof fn lemma_number_shape(v: int)
    ensures
        ({
            let t = number(v);
            &&& t.len() >= 1
            &&& t != seq!['-', '0']
            &&& v == 0 ==> t == seq!['0']
            &&& (t[0] == '-') == (v < 0)
            &&& forall|i: int|
                0 <= i < t.len() ==> ('0' <= #[trigger] t[i] <= '9' || t[i] == '.' || (i == 0
                    && t[i] == '-'))
            &&& forall|i: int|
                0 <= i < t.len() && #[trigger] t[i] == '.' ==> t.len() - 3 <= i <= t.len() - 2
                    && t.last() != '0'
        }),
{
    let m: nat = if v < 0 {
        (-v) as nat
    } else {
        v as nat
    };
    let d = decimal(m / 100);
    let f = fraction(m % 100);
    let body = d + f;
    lemma_decimal_shape(m / 100);
    let t = number(v);
    assert(v < 0 ==> t == seq!['-'] + body);
    assert(v >= 0 ==> t == body);
    let off: int = if v < 0 {
        1
    } else {
        0
    };
    assert forall|i: int| 0 <= i < t.len() implies ('0' <= #[trigger] t[i] <= '9' || t[i] == '.'
        || (i == 0 && t[i] == '-')) && (t[i] == '.' ==> i == off + d.len() && f.len() >= 2) by {
        if i >= off {
            assert(t[i] == body[i - off]);
            if i - off < d.len() {
                assert(body[i - off] == d[i - off]);
            } else {
                assert(body[i - off] == f[i - off - d.len()]);
                if f.len() == 3 {
                    assert(f[1] == digit_char((m % 100) / 10));
                    assert(f[2] == digit_char((m % 100) % 10));
                } else if f.len() == 2 {
                    assert(f[1] == digit_char((m % 100) / 10));
                }
            }
        }
    }
    if f.len() > 0 {
        assert(t.last() == f.last());
        assert((m % 100) % 10 != 0 ==> f.last() == digit_char((m % 100) % 10));
        assert((m % 100) % 10 == 0 ==> (m % 100) / 10 != 0 && f.last() == digit_char((m % 100) / 10));
    }
    if v < 0 {
        if t == seq!['-', '0'] {
            assert(body == seq!['0']) by {
                assert(body =~= t.drop_first());
            }
            assert(f.len() == 0);
            assert(d == body);
            assert(m / 100 == 0);
            assert(m % 100 == 0);
        }
    } else {
        assert(t[0] == d[0]);
    }
    if v == 0 {
        assert(d == seq![digit_char(0)]);
        assert(t =~= seq!['0']);
    }
}

proof fn lemma_ascii_concat(a: Seq<char>, b: Seq<char>)
    ensures
        ascii(a + b) == ascii(a) + ascii(b),
{
    assert(ascii(a + b) =~= ascii(a) + ascii(b));
}

/// Each page shows its own content. The page tree, object 2, counts the
/// pages and lists them in order, page `i` (counted from 0) as object
/// `5 + 2i`. That object is a page dictionary under the page tree, with the
/// file's media box, whose `/Contents` names object `6 + 2i`; and object
/// `6 + 2i` is the stream of page `i`'s content in WinAnsi, one byte for
/// each character, with that length.
pub proof fn lemma_page_shows_its_own_content(
    width: int,
    height: int,
    contents: Seq<Seq<char>>,
    i: nat,
)
    requires
        i < contents.len(),
    ensures
        ({
            let file = pdf_file(width, height, contents);
            let dict = object_body(width, height, contents, 5 + 2 * i);
            let stream = object_body(width, height, contents, 6 + 2 * i);
            let od = offset(width, height, contents, 5 + 2 * i);
            let os = offset(width, height, contents, 6 + 2 * i);
            let head = ascii(
                "<< /Type /Page /Parent 2 0 R /MediaBox [ 0 0 "@ + number(width) + " "@ + number(
                    height,
                ),
            );
            let tail = ascii("/Contents "@ + decimal(6 + 2 * i) + " 0 R >>"@);
            &&& object_body(width, height, contents, 2) == ascii(
                "<< /Type /Pages /Count "@ + decimal(contents.len()) + " /Kids [ "@ + kids(
                    contents.len(),
                ) + "] >>"@,
            )
            &&& kids(i + 1) == kids(i) + decimal(5 + 2 * i) + " 0 R "@
            &&& head.len() + tail.len() <= dict.len()
            &&& dict.take(head.len() as int) == head
            &&& dict.skip(dict.len() - tail.len()) == tail
            &&& stream == ascii("<< /Length "@ + decimal(contents[i as int].len()) + " >>\nstream\n"@)
                + winansi(contents[i as int]) + ascii("\nendstream"@)
            &&& file.subrange(od as int, (od + object(5 + 2 * i, dict).len()) as int) == object(
                5 + 2 * i,
                dict,
            )
            &&& file.subrange(os as int, (os + object(6 + 2 * i, stream).len()) as int) == object(
                6 + 2 * i,
                stream,
            )
        }),
{
    lemma_pages_in_file(width, height, contents, i);
    assert((5 + 2 * i - 5) % 2 == 0 && (5 + 2 * i - 5) / 2 == i);
    assert(!((6 + 2 * i - 5) % 2 == 0) && (6 + 2 * i - 6) / 2 == i);
    assert(page_obj(i) == 5 + 2 * i);
    assert(content_obj(i) == 6 + 2 * i);
    lemma_page_dict_shape(width, height, i);
}

proof fn lemma_page_dict_shape(width: int, height: int, i: nat)
    ensures
        ({
            let dict = ascii(page_dict(width, height, i));
            let head = ascii(
                "<< /Type /Page /Parent 2 0 R /MediaBox [ 0 0 "@ + number(width) + " "@ + number(
                    height,
                ),
            );
            let tail = ascii("/Contents "@ + decimal(6 + 2 * i) + " 0 R >>"@);
            &&& head.len() + tail.len() <= dict.len()
            &&& dict.take(head.len() as int) == head
            &&& dict.skip(dict.len() - tail.len()) == tail
        }),
{
    let h1 = "<< /Type /Page /Parent 2 0 R /MediaBox [ 0 0 "@;
    let mid = " ] /Resources << /Font << /F1 3 0 R /F2 4 0 R >> >> /Contents "@;
    let c = decimal(content_obj(i));
    let hc = h1 + number(width) + " "@ + number(height);
    let tc = "/Contents "@ + c + " 0 R >>"@;
    let pd = page_dict(width, height, i);
    reveal_strlit(" ] /Resources << /Font << /F1 3 0 R /F2 4 0 R >> >> /Contents ");
    reveal_strlit("/Contents ");
    let mid0 = mid.take(mid.len() - 10);
    assert(mid =~= mid0 + "/Contents "@);
    assert(pd =~= hc + mid0 + tc);
    lemma_ascii_concat(hc + mid0, tc);
    lemma_ascii_concat(hc, mid0);
    let dict = ascii(pd);
    assert(dict.take(ascii(hc).len() as int) =~= ascii(hc));
    assert(dict.skip(dict.len() - ascii(tc).len()) =~= ascii(tc));
}

/// The objects every file opens with: object 1 is the catalog, which points
/// at the page tree, object 2; objects 3 and 4 are Helvetica and
/// Helvetica-Bold in WinAnsi encoding, the fonts `F1` and `F2` of every page.
pub proof fn lemma_fixed_objects(width: int, height: int, contents: Seq<Seq<char>>)
    ensures
        object_body(width, height, contents, 1) == ascii("<< /Type /Catalog /Pages 2 0 R >>"@),
        object_body(width, height, contents, 3) == ascii(
            "<< /Type /Font /Subtype /Type1 /BaseFont /Helvetica /Encoding /WinAnsiEncoding >>"@,
        ),
        object_body(width, height, contents, 4) == ascii(
            "<< /Type /Font /Subtype /Type1 /BaseFont /Helvetica-Bold /Encoding /WinAnsiEncoding >>"@,
        ),
{
}

pub open spec fn special(c: char) -> bool {
    c == '(' || c == ')' || c == '\\'
}

/// How many characters of `s` a PDF string escapes.
pub open spec fn specials(s: Seq<char>) -> nat
    decreases s.len(),
{
    if s.len() == 0 {
        0
    } else {
        specials(s.drop_last()) + if special(s.last()) {
            1nat
        } else {
            0nat
        }
    }
}

/// Reading an escaped string back, from its end: a special character is
/// preceded by the backslash that escapes it, which is dropped.
pub open spec fn unescaped(e: Seq<char>) -> Seq<char>
    decreases e.len(),
{
    if e.len() == 0 {
        Seq::empty()
    } else if special(e.last()) && e.len() >= 2 {
        unescaped(e.take(e.len() - 2)).push(e.last())
    } else {
        unescaped(e.drop_last()).push(e.last())
    }
}

/// Escaping adds one backslash for each special character, reads back to the
/// text, and leaves text without special characters as it is.
pub proof fn lemma_escape_laws(s: Seq<char>)
    ensures
        escaped(s).len() == s.len() + specials(s),
        unescaped(escaped(s)) == s,
        specials(s) == 0 ==> escaped(s) == s,
    decreases s.len(),
{
    if s.len() > 0 {
        let p = s.drop_last();
        let c = s.last();
        lemma_escape_laws(p);
        let e = escaped(s);
        assert(e == escaped(p) + escape_char(c));
        if special(c) {
            assert(e.take(e.len() - 2) == escaped(p));
            assert(e.last() == c);
        } else {
            assert(e.drop_last() == escaped(p));
            assert(e.last() == c);
        }
        assert(s == p.push(c));
    } else {
        assert(escaped(s) == s);
    }
}

} // verus!
