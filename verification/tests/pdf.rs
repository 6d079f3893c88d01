use mathgen::font::Font;
use mathgen::pdf::{escape, num, to_winansi, Pdf};

fn find(hay: &[u8], needle: &[u8]) -> Option<usize> {
    hay.windows(needle.len()).position(|w| w == needle)
}

#[test]
fn numbers_have_at_most_two_decimals_and_no_negative_zero() {
    assert_eq!(num(0), "0");
    assert_eq!(num(100), "1");
    assert_eq!(num(12345), "123.45");
    assert_eq!(num(120), "1.2");
    assert_eq!(num(-50), "-0.5");
    assert_eq!(num(-1), "-0.01");
    assert_eq!(num(61200), "612");
    assert_eq!(num(59528), "595.28");
    assert_eq!(num(i64::MIN), "-92233720368547758.08");
}

#[test]
fn parentheses_and_backslashes_are_escaped() {
    assert_eq!(escape("a(b)c\\"), "a\\(b\\)c\\\\");
    assert_eq!(escape("plain"), "plain");
    assert_eq!(escape(""), "");
}

#[test]
fn text_is_encoded_in_winansi() {
    assert_eq!(to_winansi("A\u{2013}\u{00D7}\u{00E9}\u{20AC}~\u{7F}"),
               vec![0x41, 0x96, 0xD7, 0xE9, b'?', b'~', b'?']);
    assert_eq!(to_winansi("\u{2014}\u{2018}\u{2019}\u{201C}\u{201D}\u{2022}"),
               vec![0x97, 0x91, 0x92, 0x93, 0x94, 0x95]);
}

#[test]
fn drawing_commands_are_written_to_the_content_stream() {
    let mut doc = Pdf::new(61200, 79200);
    let page = doc.page();
    page.fill_gray(35);
    page.text("A(b)", Font::Bold, 5200, 10000, 5025);
    page.line(4320, 70000, 56880, 70000, 100, 80);
    page.text_right("88", Font::Bold, 5200, 30000, 1000);
    page.text_centre("88", Font::Regular, 900, 30600, 2376);
    let bytes = doc.render();
    let content = "0.35 g\n\
                   BT /F2 52 Tf 100 50.25 Td (A\\(b\\)) Tj ET\n\
                   0.8 G 1 w 43.2 700 m 568.8 700 l S\n\
                   BT /F2 52 Tf 242.18 10 Td (88) Tj ET\n\
                   BT /F1 9 Tf 301 23.76 Td (88) Tj ET\n";
    let stream = format!("<< /Length {} >>\nstream\n{}\nendstream", content.len(), content);
    assert!(find(&bytes, stream.as_bytes()).is_some());
}

#[test]
fn an_empty_document_is_laid_out_exactly() {
    let doc = Pdf::new(61200, 79200);
    let bytes = doc.render();
    let mut expected: Vec<u8> = b"%PDF-1.4\n%\xE2\xE3\xCF\xD3\n".to_vec();
    let objs = [
        "1 0 obj\n<< /Type /Catalog /Pages 2 0 R >>\nendobj\n",
        "2 0 obj\n<< /Type /Pages /Count 0 /Kids [ ] >>\nendobj\n",
        "3 0 obj\n<< /Type /Font /Subtype /Type1 /BaseFont /Helvetica /Encoding /WinAnsiEncoding >>\nendobj\n",
        "4 0 obj\n<< /Type /Font /Subtype /Type1 /BaseFont /Helvetica-Bold /Encoding /WinAnsiEncoding >>\nendobj\n",
    ];
    let mut offsets = vec![];
    for o in objs {
        offsets.push(expected.len());
        expected.extend_from_slice(o.as_bytes());
    }
    let startxref = expected.len();
    expected.extend_from_slice(b"xref\n0 5\n0000000000 65535 f \n");
    for off in offsets {
        expected.extend_from_slice(format!("{off:010} 00000 n \n").as_bytes());
    }
    expected.extend_from_slice(
        format!("trailer\n<< /Size 5 /Root 1 0 R >>\nstartxref\n{startxref}\n%%EOF\n").as_bytes(),
    );
    assert_eq!(bytes, expected);
}

#[test]
fn xref_offsets_find_every_object() {
    let mut doc = Pdf::new(59528, 84189);
    for k in 0..3 {
        let page = doc.page();
        page.text(&format!("page {k} \u{2014} caf\u{00E9}"), Font::Regular, 1200, 5000, 70000);
    }
    assert_eq!(doc.width(), 59528);
    assert_eq!(doc.height(), 84189);
    let bytes = doc.render();
    let text = String::from_utf8_lossy(&bytes).into_owned();
    assert!(text.contains("/MediaBox [ 0 0 595.28 841.89 ]"));
    assert!(text.contains("<< /Type /Pages /Count 3 /Kids [ 5 0 R 7 0 R 9 0 R ] >>"));
    let sx = find(&bytes, b"startxref\n").unwrap() + "startxref\n".len();
    let end = find(&bytes[sx..], b"\n").unwrap() + sx;
    let xref: usize = std::str::from_utf8(&bytes[sx..end]).unwrap().parse().unwrap();
    assert_eq!(&bytes[xref..xref + 10], b"xref\n0 11\n");
    let table = xref + 10;
    for id in 1..=10usize {
        let entry = &bytes[table + 20 * id..table + 20 * id + 20];
        let off: usize = std::str::from_utf8(&entry[..10]).unwrap().parse().unwrap();
        assert_eq!(&entry[10..], b" 00000 n \n");
        let head = format!("{id} 0 obj\n");
        assert_eq!(&bytes[off..off + head.len()], head.as_bytes());
    }
    // The em dash and the e acute reach the stream as single WinAnsi bytes.
    assert!(find(&bytes, b"(page 1 \x97 caf\xE9) Tj").is_some());
}

#[test]
fn escaping_adds_one_backslash_per_special_and_undoes_cleanly() {
    let s = "a(b)c\\d";
    let e = escape(s);
    assert_eq!(e.chars().count(), s.chars().count() + 3);
    let mut back = String::new();
    let mut pending = false;
    for c in e.chars() {
        if c == '\\' && !pending {
            pending = true;
        } else {
            back.push(c);
            pending = false;
        }
    }
    assert_eq!(back, s);
    assert_eq!(escape("Name: ____ Date: 3/4"), "Name: ____ Date: 3/4");
}
