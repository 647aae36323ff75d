use hexview::byte_reader::TilingByteReader;
use hexview::hex_reader::{HexReader, HexVisitor, VisualMode};
use hexview::hex_tables::{ascii_glyph, byte_category, hex_byte_string, unicode_glyph, ByteCategory};

fn empty_reader() -> HexReader {
    HexReader::new(TilingByteReader::new(String::from("/t"), String::from("t"), 0))
}

#[test]
fn hex_table_has_two_digits_for_every_byte() {
    let hr = empty_reader();
    let table = hr.map_hex_table(|_cat, s| s);
    assert_eq!(table.len(), 256);
    assert_eq!(table[0x00], "00");
    assert_eq!(table[0x30], "30");
    assert_eq!(table[0x61], "61");
    assert_eq!(table[0xFF], "FF");
    for (i, s) in table.iter().enumerate() {
        assert_eq!(s, &hex_byte_string(i as u8));
        assert_eq!(s.len(), 2);
    }
}

#[test]
fn byte_categories_classify_ascii() {
    assert_eq!(byte_category(b' '), ByteCategory::AsciiWhitespace);
    assert_eq!(byte_category(b'\t'), ByteCategory::AsciiWhitespace);
    assert_eq!(byte_category(b'\n'), ByteCategory::AsciiWhitespace);
    assert_eq!(byte_category(0x01), ByteCategory::AsciiControl);
    assert_eq!(byte_category(0x7F), ByteCategory::AsciiControl);
    assert_eq!(byte_category(b'A'), ByteCategory::AsciiPrintable);
    assert_eq!(byte_category(b'~'), ByteCategory::AsciiPrintable);
    assert_eq!(byte_category(0x80), ByteCategory::NonAscii);
    assert_eq!(byte_category(0xFF), ByteCategory::NonAscii);
    let hr = empty_reader();
    let cats = hr.map_hex_table(|cat, _s| cat);
    assert_eq!(cats[b'A' as usize], ByteCategory::AsciiPrintable);
    assert_eq!(cats[0x00], ByteCategory::AsciiControl);
}

#[test]
fn visual_table_follows_mode() {
    let mut hr = empty_reader();
    assert!(matches!(hr.get_visual_mode(), VisualMode::Unicode));
    let unicode = hr.map_visual_table(|_c, g| g);
    assert_eq!(unicode[b'A' as usize], 'A');
    assert_eq!(unicode[0x01], '?');
    assert_eq!(unicode[0xE9], 0xE9 as u8 as char);

    hr.set_visual_mode(VisualMode::Ascii);
    assert!(matches!(hr.get_visual_mode(), VisualMode::Ascii));
    let ascii = hr.map_visual_table(|_c, g| g);
    assert_eq!(ascii[b'A' as usize], 'A');
    assert_eq!(ascii[0x01], '.');
    assert_eq!(ascii[0xE9], '.');

    // Off degrades to the Ascii table: a rendering choice, not a new table.
    hr.set_visual_mode(VisualMode::Off);
    let off = hr.map_visual_table(|_c, g| g);
    assert_eq!(off, ascii);
    for i in 0..256usize {
        assert_eq!(ascii[i], ascii_glyph(i as u8));
        assert_eq!(unicode[i], unicode_glyph(i as u8));
    }
}

struct CountSink {
    bytes: usize,
    groups: usize,
    lines: usize,
    group_right_after_line: bool,
    last_was_line: bool,
}

impl HexVisitor for CountSink {
    fn byte(&mut self, _index: usize) {
        self.bytes += 1;
        self.last_was_line = false;
    }

    fn group(&mut self) {
        self.groups += 1;
        if self.last_was_line {
            self.group_right_after_line = true;
        }
    }

    fn next_line(&mut self) {
        self.lines += 1;
        self.last_was_line = true;
    }

    fn end(&mut self) {}
}

#[test]
fn one_line_break_per_window_width() {
    let bytes: Vec<u8> = (0..26u32).map(|i| b'a' + (i % 26) as u8).collect();
    let tbr = TilingByteReader::new(String::from("/c"), String::from("c"), bytes.len() as u64);
    let mut hr = HexReader::new(tbr);
    hr.insert_tile(0, bytes);
    hr.window_pos = (0, 0);
    hr.window_size = (4, 16);
    hr.line_width = 4;
    hr.group = 2;
    hr.capture().unwrap();
    let mut sink = CountSink {
        bytes: 0,
        groups: 0,
        lines: 0,
        group_right_after_line: false,
        last_was_line: false,
    };
    hr.visit_hex(&mut sink);
    assert_eq!(sink.bytes, 26);
    // One line break per 4 bytes consumed, and a line's end is never also
    // marked as a group boundary.
    assert_eq!(sink.lines, 26 / 4);
    assert_eq!(sink.groups, 7);
    assert!(!sink.group_right_after_line);
}

struct MarkSink(String);

impl HexVisitor for MarkSink {
    fn byte(&mut self, index: usize) {
        self.0.push_str(&hex_byte_string(index as u8));
    }

    fn group(&mut self) {
        self.0.push('|');
    }

    fn next_line(&mut self) {
        self.0.push('\n');
    }

    fn end(&mut self) {}
}

#[test]
fn grouping_follows_absolute_column() {
    let mut hr = HexReader::new(TilingByteReader::new(
        String::from("/g"),
        String::from("g"),
        16,
    ));
    hr.insert_tile(0, b"0123456789abcdef".to_vec());
    hr.line_width = 8;
    hr.group = 2;
    hr.window_size = (4, 1);

    hr.window_pos = (0, 0);
    hr.capture().unwrap();
    let mut aligned = MarkSink(String::new());
    hr.visit_hex(&mut aligned);
    assert_eq!(aligned.0, "3031|3233\n");

    // Scrolled one column right: grouping stays aligned to the absolute
    // column, so the separator now follows the first visible byte.
    hr.window_pos = (1, 0);
    hr.capture().unwrap();
    let mut scrolled = MarkSink(String::new());
    hr.visit_hex(&mut scrolled);
    assert_eq!(scrolled.0, "31|3233|34\n");
}
