use hexview::byte_reader::{NeedBytes, TilingByteReader};
use hexview::hex_reader::{HexReader, HexVisitor, OffsetsVisitor, VisualMode, VisualVisitor};
use hexview::hex_tables::hex_byte_string;

struct OffsetSink(String);

impl OffsetsVisitor for OffsetSink {
    fn offset(&mut self, offset: &str) {
        self.0.push_str(offset);
        self.0.push('\n');
    }

    fn end(&mut self) {
        self.0.pop();
    }
}

struct HexSink(String);

impl HexVisitor for HexSink {
    fn byte(&mut self, index: usize) {
        self.0.push_str(&hex_byte_string(index as u8));
        self.0.push(' ');
    }

    fn group(&mut self) {
        // Nothing to do.
    }

    fn next_line(&mut self) {
        self.0.pop();
        self.0.push('\n');
    }

    fn end(&mut self) {
        self.0.pop();
    }
}

fn reader_over(bytes: &[u8]) -> HexReader {
    let tbr = TilingByteReader::new(
        String::from("/tmp/data.bin"),
        String::from("data.bin"),
        bytes.len() as u64,
    );
    let mut hr = HexReader::new(tbr);
    let mut off = 0usize;
    while off < bytes.len() {
        let end = (off + 4096).min(bytes.len());
        hr.insert_tile((off / 4096) as u64, bytes[off..end].to_vec());
        off = end;
    }
    hr
}

#[test]
fn getting_hex_of_file_top_left_window() {
    let mut reader = reader_over(b"0123456789abcdef");
    reader.window_pos = (0, 0);
    reader.window_size = (2, 2);
    reader.line_width = 4;
    reader.capture().unwrap();
    let mut hex = HexSink(String::new());
    reader.visit_hex(&mut hex);
    // Bytes:  Hex:
    //  01      30 31
    //  45      34 35
    assert_eq!(hex.0, "30 31\n34 35")
}

#[test]
fn hex_view_bigger_than_file() {
    let mut reader = reader_over(b"0123456789abcdef");
    reader.window_pos = (0, 0);
    reader.window_size = (4, 16);
    reader.line_width = 4;
    reader.capture().unwrap();
    let mut hex = HexSink(String::new());
    reader.visit_hex(&mut hex);
    // Bytes:  Hex:
    //  0123    30 31 32 33
    //  4567    34 35 36 37
    //  89ab    38 39 61 62
    //  cdef    63 64 65 66
    assert_eq!(hex.0, "30 31 32 33\n34 35 36 37\n38 39 61 62\n63 64 65 66");
    let mut offsets = OffsetSink(String::new());
    reader.visit_row_offsets(&mut offsets);
    assert_eq!(offsets.0, "0x00000000\n0x00000004\n0x00000008\n0x0000000C");
}

#[test]
fn hex_view_bigger_than_unaligned_file() {
    let mut reader = reader_over(b"0123456789abcde");
    reader.window_pos = (0, 0);
    reader.window_size = (4, 16);
    reader.line_width = 4;
    reader.capture().unwrap();
    let mut hex = HexSink(String::new());
    reader.visit_hex(&mut hex);
    // Bytes:  Hex:
    //  0123    30 31 32 33
    //  4567    34 35 36 37
    //  89ab    38 39 61 62
    //  cde     63 64 65
    assert_eq!(hex.0, "30 31 32 33\n34 35 36 37\n38 39 61 62\n63 64 65");
    let mut offsets = OffsetSink(String::new());
    reader.visit_row_offsets(&mut offsets);
    assert_eq!(offsets.0, "0x00000000\n0x00000004\n0x00000008\n0x0000000C");
}

#[test]
fn capture_reports_missing_bytes() {
    let tbr = TilingByteReader::new(String::from("/f"), String::from("f"), 16);
    let mut hr = HexReader::new(tbr);
    hr.window_pos = (0, 0);
    hr.window_size = (2, 2);
    hr.line_width = 4;
    let need = hr.capture().unwrap_err();
    assert_eq!(need, NeedBytes { offset: 0, len: 16 });
    hr.insert_tile(0, b"0123456789abcdef".to_vec());
    assert!(hr.capture().is_ok());
    let mut hex = HexSink(String::new());
    hr.visit_hex(&mut hex);
    assert_eq!(hex.0, "30 31\n34 35");
}

#[test]
fn capture_crosses_tile_boundary() {
    let bytes: Vec<u8> = (0..5000u32).map(|i| (i % 256) as u8).collect();
    let mut hr = reader_over(&bytes);
    hr.window_pos = (0, 1023);
    hr.window_size = (4, 2);
    hr.line_width = 4;
    hr.capture().unwrap();
    let mut hex = HexSink(String::new());
    hr.visit_hex(&mut hex);
    let expect = format!(
        "{} {} {} {}\n{} {} {} {}",
        hex_byte_string(bytes[4092]),
        hex_byte_string(bytes[4093]),
        hex_byte_string(bytes[4094]),
        hex_byte_string(bytes[4095]),
        hex_byte_string(bytes[4096]),
        hex_byte_string(bytes[4097]),
        hex_byte_string(bytes[4098]),
        hex_byte_string(bytes[4099]),
    );
    assert_eq!(hex.0, expect);
}

#[test]
fn capture_of_window_inside_file_is_full() {
    let bytes: Vec<u8> = (0..64u32).map(|i| i as u8).collect();
    let mut hr = reader_over(&bytes);
    hr.window_pos = (2, 1);
    hr.window_size = (4, 4);
    hr.line_width = 8;
    hr.capture().unwrap();
    assert_eq!(hr.capture.len(), 4 * 4);
    assert_eq!(hr.capture, vec![10, 11, 12, 13, 18, 19, 20, 21, 26, 27, 28, 29, 34, 35, 36, 37]);
}

#[test]
fn capture_past_end_keeps_partial_row_only() {
    let bytes: Vec<u8> = (0..15u32).map(|i| i as u8).collect();
    let mut hr = reader_over(&bytes);
    hr.window_pos = (0, 0);
    hr.window_size = (4, 16);
    hr.line_width = 4;
    hr.capture().unwrap();
    // Three full rows and a 3-byte partial row; nothing after it.
    assert_eq!(hr.capture.len(), 3 * 4 + 3);
}

#[test]
fn lines_in_file_counts_whole_lines() {
    let mut hr = reader_over(b"0123456789abcdef");
    hr.line_width = 5;
    assert_eq!(hr.get_lines_in_file(), 3);
    hr.line_width = 4;
    assert_eq!(hr.get_lines_in_file(), 4);
    hr.line_width = 16;
    assert_eq!(hr.get_lines_in_file(), 1);
    hr.line_width = 17;
    assert_eq!(hr.get_lines_in_file(), 0);
}

#[test]
fn row_offsets_width_tracks_address_size() {
    let small = HexReader::new(TilingByteReader::new(
        String::from("/s"),
        String::from("s"),
        0xFFFF_FFFF,
    ));
    assert_eq!(small.get_row_offsets_width(), 10);
    let large = HexReader::new(TilingByteReader::new(
        String::from("/l"),
        String::from("l"),
        0x1_0000_0000,
    ));
    assert_eq!(large.get_row_offsets_width(), 18);
}

#[test]
fn large_addresses_use_sixteen_digits() {
    let tbr = TilingByteReader::new(String::from("/big"), String::from("big"), 0x1_0000_0010);
    let mut hr = HexReader::new(tbr);
    hr.window_pos = (0, 0);
    hr.window_size = (2, 2);
    hr.line_width = 4;
    hr.insert_tile(0, (0..4096u32).map(|i| i as u8).collect());
    hr.capture().unwrap();
    let mut offsets = OffsetSink(String::new());
    hr.visit_row_offsets(&mut offsets);
    assert_eq!(offsets.0, "0x0000000000000000\n0x0000000000000004");
}

#[test]
fn offset_values_do_not_depend_on_address_width() {
    // The same window over a small and a huge file labels the same rows;
    // only the label width changes (8 vs 16 digits after "0x").
    let small = hexview::hex_reader::format_offset(0x1C, false);
    let large = hexview::hex_reader::format_offset(0x1C, true);
    assert_eq!(small, "0x0000001C");
    assert_eq!(large, "0x000000000000001C");
    assert_eq!(small.len(), 10);
    assert_eq!(large.len(), 18);
    assert!(large.ends_with(&small[2..]));
}

#[test]
fn format_offset_exact_digits() {
    assert_eq!(hexview::hex_reader::format_offset(0xABCDEF12, false), "0xABCDEF12");
    assert_eq!(
        hexview::hex_reader::format_offset(0xABCDEF12_3456789A, true),
        "0xABCDEF123456789A"
    );
    assert_eq!(hexview::hex_reader::format_offset(0, false), "0x00000000");
}

#[test]
fn reopen_invalidates_cached_tiles() {
    let mut hr = reader_over(b"0123456789abcdef");
    hr.window_pos = (0, 0);
    hr.window_size = (2, 2);
    hr.line_width = 4;
    hr.capture().unwrap();
    // The file shrank on disk; reopen drops every cached tile.
    hr.reopen(8);
    assert_eq!(hr.get_length(), 8);
    let need = hr.capture().unwrap_err();
    assert_eq!(need, NeedBytes { offset: 0, len: 8 });
    hr.insert_tile(0, b"01234567".to_vec());
    hr.capture().unwrap();
    let mut hex = HexSink(String::new());
    hr.visit_hex(&mut hex);
    assert_eq!(hex.0, "30 31\n34 35");
}

#[test]
fn set_reader_preserves_configuration() {
    let mut hr = reader_over(b"0123456789abcdef");
    hr.window_pos = (0, 0);
    hr.window_size = (2, 2);
    hr.line_width = 4;
    hr.group = 2;
    hr.capture().unwrap();
    let other = TilingByteReader::new(String::from("/other"), String::from("other"), 8);
    hr.set_reader(other);
    assert_eq!(hr.line_width, 4);
    assert_eq!(hr.group, 2);
    assert_eq!(hr.window_size, (2, 2));
    assert_eq!(hr.file_name(), "other");
    assert_eq!(hr.get_length(), 8);
    // The stale capture was dropped with the old reader.
    assert!(hr.capture.is_empty());
    hr.insert_tile(0, b"abcdefgh".to_vec());
    hr.capture().unwrap();
    let mut hex = HexSink(String::new());
    hr.visit_hex(&mut hex);
    assert_eq!(hex.0, "61 62\n65 66");
}

#[test]
fn reader_metadata_accessors() {
    let hr = reader_over(b"0123");
    assert_eq!(hr.file_name(), "data.bin");
    assert_eq!(hr.get_path(), "/tmp/data.bin");
    assert_eq!(hr.get_length(), 4);
}

struct GlyphSink(String);

impl VisualVisitor for GlyphSink {
    fn visual_element(&mut self, index: usize) {
        self.0.push(hexview::hex_tables::ascii_glyph(index as u8));
    }

    fn group(&mut self) {
        self.0.push('|');
    }

    fn next_line(&mut self) {
        self.0.push('\n');
    }

    fn end(&mut self) {}
}

#[test]
fn visual_traversal_mirrors_hex_structure() {
    let mut hr = reader_over(b"AB\x01Dabcd");
    hr.window_pos = (0, 0);
    hr.window_size = (4, 2);
    hr.line_width = 4;
    hr.group = 2;
    hr.capture().unwrap();
    let mut sink = GlyphSink(String::new());
    hr.visit_visual(&mut sink);
    // Group break after absolute column 2, line break after column 4.
    assert_eq!(sink.0, "AB|.D\nab|cd\n");
}
