//! The hex reader: view configuration, the capture buffer, and the three
//! visitor-driven traversals (row offsets, hex bytes, visual glyphs) over
//! one captured window.

use vstd::prelude::*;
use vstd::string::StringExecFns;
use vstd::arithmetic::div_mod::{
    lemma_fundamental_div_mod,
    lemma_fundamental_div_mod_converse,
    lemma_div_multiples_vanish_fancy,
    lemma_mod_bound,
};
use vstd::arithmetic::mul::lemma_mul_inequality;

use crate::byte_reader::{win_needs, win_seq, tile_len, NeedBytes, TilingByteReader, TILE_SIZE};
use crate::hex_tables::{
    byte_category,
    category_of,
    hex_byte_chars,
    hex_byte_string,
    hex_digit_char,
    hex_digit_str,
    ascii_glyph,
    ascii_glyph_char,
    unicode_glyph,
    unicode_glyph_char,
    ByteCategory,
};

verus! {

/// Which glyph table renders the visual (non-hex) column. `Off` keeps the
/// Ascii table; it is a rendering choice, not a distinct table.
#[derive(Copy, Clone, Debug, PartialEq, Eq, Structural)]
pub enum VisualMode {
    Unicode,
    Ascii,
    Off,
}

/// Sink for the row-offset traversal.
pub trait OffsetsVisitor {
    fn offset(&mut self, offset: &str);

    fn end(&mut self);
}

/// Sink for the hex-byte traversal.
pub trait HexVisitor {
    fn byte(&mut self, index: usize);

    fn group(&mut self);

    fn next_line(&mut self);

    fn end(&mut self);
}

/// Sink for the visual-glyph traversal.
pub trait VisualVisitor {
    fn visual_element(&mut self, index: usize);

    fn group(&mut self);

    fn next_line(&mut self);

    fn end(&mut self);
}

/// One event of the hex-byte or visual traversal, in emission order. The
/// terminal `end` call is not part of the stream; it always follows it.
#[derive(Copy, Clone, Debug, PartialEq, Eq, Structural)]
pub enum StreamToken {
    Byte(u8),
    GroupBreak,
    LineBreak,
}

/// The separator emitted after the byte at 1-based position `p` of its
/// line: a line break at the wrap column `w`, else a group break whenever
/// the absolute column `x + p` is a multiple of `g`. A line break is never
/// also a group break.
pub open spec fn sep_after(p: int, x: int, w: int, g: int) -> Seq<StreamToken> {
    if p == w {
        seq![StreamToken::LineBreak]
    } else if (x + p) % g == 0 {
        seq![StreamToken::GroupBreak]
    } else {
        Seq::empty()
    }
}

/// The traversal events for the buffer suffix starting at index `n`.
pub open spec fn stream_from(s: Seq<u8>, n: int, x: int, w: int, g: int) -> Seq<StreamToken>
    decreases s.len() - n,
{
    if n < 0 || n >= s.len() {
        Seq::empty()
    } else {
        seq![StreamToken::Byte(s[n])] + sep_after(n % w + 1, x, w, g) + stream_from(
            s,
            n + 1,
            x,
            w,
            g,
        )
    }
}

/// The full event stream for a captured buffer: bytes in order, a line
/// break after every `w`-th byte, group breaks at absolute columns that
/// are multiples of `g`.
pub open spec fn stream_spec(s: Seq<u8>, x: int, w: int, g: int) -> Seq<StreamToken> {
    stream_from(s, 0, x, w, g)
}

/// The hex digits of `v`, exactly `n` of them, most significant first,
/// zero padded.
pub open spec fn hex_chars(v: int, n: nat) -> Seq<char>
    decreases n,
{
    if n == 0 {
        Seq::empty()
    } else {
        hex_chars(v / 16, (n - 1) as nat).push(hex_digit_char(v % 16))
    }
}

/// A formatted offset label: `0x` then 16 hex digits in large-address
/// mode, 8 otherwise.
pub open spec fn offset_string(v: int, large: bool) -> Seq<char> {
    seq!['0', 'x'] + hex_chars(
        v,
        if large {
            16nat
        } else {
            8nat
        },
    )
}

/// Number of offset labels a traversal emits: the number of rows present
/// in a captured buffer of `cap_len` bytes at `w` columns, rounded up,
/// capped at the window height `h`.
pub open spec fn offset_count(cap_len: int, w: int, h: int) -> int {
    let rows = if cap_len % w == 0 {
        cap_len / w
    } else {
        cap_len / w + 1
    };
    if rows < h {
        rows
    } else {
        h
    }
}

fn push_hex_chars(s: &mut String, v: u64, n: u8)
    ensures
        final(s)@ == old(s)@ + hex_chars(v as int, n as nat),
    decreases n,
{
    if n == 0 {
        proof {
            assert(s@ =~= s@ + hex_chars(v as int, 0));
        }
    } else {
        push_hex_chars(s, v / 16, n - 1);
        let d = (v % 16) as u8;
        s.append(hex_digit_str(d));
        proof {
            assert(s@ =~= old(s)@ + hex_chars(v as int, n as nat));
        }
    }
}

/// The `0x`-prefixed, zero-padded hex label for one absolute byte offset.
pub fn format_offset(v: u64, large: bool) -> (s: String)
    ensures
        s@ == offset_string(v as int, large),
{
    let mut s = String::from_str("0x");
    proof {
        reveal_strlit("0x");
        assert(s@ =~= seq!['0', 'x']);
    }
    if large {
        push_hex_chars(&mut s, v, 16);
    } else {
        push_hex_chars(&mut s, v, 8);
    }
    s
}

/// Whether `result` is what a callback produces for byte value `i` of
/// the hex table: applied to `i`'s category and some string reading as
/// `i`'s two hex digits.
pub open spec fn hex_table_entry<T, F: Fn(ByteCategory, String) -> T>(
    callback: F,
    i: int,
    result: T,
) -> bool {
    exists|t: String|
        t@ == hex_byte_chars(i as u8) && #[trigger] callback.ensures(
            (category_of(i as u8), t),
            result,
        )
}

/// The hex reader: the tiled byte reader it owns, the view configuration,
/// and the capture buffer for the current window.
pub struct HexReader {
    pub reader: TilingByteReader,
    pub line_width: u64,
    pub group: u16,
    pub window_pos: (u64, u64),
    pub window_size: (u16, u16),
    pub capture: Vec<u8>,
    pub vis_mode: VisualMode,
}

impl HexReader {
    /// The bytes of the current capture buffer.
    pub open spec fn cap_bytes(&self) -> Seq<u8> {
        self.capture@
    }

    /// The modelled contents of the underlying file.
    pub open spec fn contents_spec(&self) -> Seq<u8> {
        self.reader.contents()
    }

    pub open spec fn file_length_spec(&self) -> u64 {
        self.reader.file_length()
    }

    pub open spec fn name_spec(&self) -> Seq<char> {
        self.reader.name_spec()
    }

    pub open spec fn path_spec(&self) -> Seq<char> {
        self.reader.path_spec()
    }

    /// Whether the underlying reader can serve the byte at `off` from its
    /// cache.
    pub open spec fn covers_spec(&self, off: int) -> bool {
        self.reader.covers(off)
    }

    pub open spec fn wf(&self) -> bool {
        self.reader.wf()
    }

    /// What a capture of the current window returns once every needed
    /// byte is cached.
    pub open spec fn window_spec(&self) -> Seq<u8> {
        win_seq(
            self.contents_spec(),
            self.window_pos.0 as int,
            self.window_pos.1 as int,
            self.window_size.0 as int,
            self.window_size.1 as int,
            self.line_width as int,
        )
    }

    /// Whether the current window needs the byte at file offset `off`.
    pub open spec fn window_needs_spec(&self, off: int) -> bool {
        win_needs(
            self.file_length_spec() as int,
            self.window_pos.0 as int,
            self.window_pos.1 as int,
            self.window_size.0 as int,
            self.window_size.1 as int,
            self.line_width as int,
            off,
        )
    }

    /// A reader over the given byte source, with the default view: 16
    /// bytes per line, groups of 8, a 16x32 window at the origin, Unicode
    /// glyphs, and an empty capture buffer.
    pub fn new(reader: TilingByteReader) -> (r: HexReader)
        requires
            reader.wf(),
        ensures
            r.wf(),
            r.line_width == 16u64,
            r.group == 8u16,
            r.window_pos == (0u64, 0u64),
            r.window_size == (16u16, 32u16),
            r.vis_mode == VisualMode::Unicode,
            r.cap_bytes() == Seq::<u8>::empty(),
            r.contents_spec() == reader.contents(),
            r.file_length_spec() == reader.file_length(),
            r.name_spec() == reader.name_spec(),
            r.path_spec() == reader.path_spec(),
            forall|off: int| r.covers_spec(off) == reader.covers(off),
    {
        HexReader {
            reader,
            line_width: 16,
            group: 8,
            window_pos: (0, 0),
            window_size: (16, 32),
            capture: Vec::new(),
            vis_mode: VisualMode::Unicode,
        }
    }

    /// Replace the underlying reader, for switching to another file. The
    /// view configuration is preserved; the capture buffer is stale and is
    /// cleared until the next `capture`.
    pub fn set_reader(&mut self, reader: TilingByteReader)
        requires
            reader.wf(),
        ensures
            final(self).wf(),
            final(self).line_width == old(self).line_width,
            final(self).group == old(self).group,
            final(self).window_pos == old(self).window_pos,
            final(self).window_size == old(self).window_size,
            final(self).vis_mode == old(self).vis_mode,
            final(self).cap_bytes() == Seq::<u8>::empty(),
            final(self).contents_spec() == reader.contents(),
            final(self).file_length_spec() == reader.file_length(),
            final(self).name_spec() == reader.name_spec(),
            final(self).path_spec() == reader.path_spec(),
    {
        self.reader = reader;
        self.capture = Vec::new();
    }

    /// Adopt a freshly measured file length and drop all cached bytes.
    pub fn reopen(&mut self, new_length: u64)
        requires
            old(self).wf(),
        ensures
            final(self).wf(),
            final(self).line_width == old(self).line_width,
            final(self).group == old(self).group,
            final(self).window_pos == old(self).window_pos,
            final(self).window_size == old(self).window_size,
            final(self).vis_mode == old(self).vis_mode,
            final(self).cap_bytes() == old(self).cap_bytes(),
            final(self).file_length_spec() == new_length,
            final(self).name_spec() == old(self).name_spec(),
            final(self).path_spec() == old(self).path_spec(),
            forall|off: int| !final(self).covers_spec(off),
    {
        self.reader.reopen(new_length);
    }

    /// Hand the reader one tile of file bytes, as read by the owner of
    /// the actual file; see `TilingByteReader::insert_tile`.
    pub fn insert_tile(&mut self, index: u64, bytes: Vec<u8>)
        requires
            old(self).wf(),
            (index as int) * (TILE_SIZE as int) < old(self).file_length_spec(),
            bytes@.len() == tile_len(old(self).file_length_spec() as int, index as int),
        ensures
            final(self).wf(),
            final(self).line_width == old(self).line_width,
            final(self).group == old(self).group,
            final(self).window_pos == old(self).window_pos,
            final(self).window_size == old(self).window_size,
            final(self).vis_mode == old(self).vis_mode,
            final(self).cap_bytes() == old(self).cap_bytes(),
            final(self).file_length_spec() == old(self).file_length_spec(),
            final(self).name_spec() == old(self).name_spec(),
            final(self).path_spec() == old(self).path_spec(),
            final(self).contents_spec().len() == old(self).contents_spec().len(),
            forall|i: int|
                0 <= i < final(self).contents_spec().len() ==> final(self).contents_spec()[i] == (
                if (index as int) * (TILE_SIZE as int) <= i < (index as int) * (TILE_SIZE as int)
                    + bytes@.len() {
                    bytes@[i - (index as int) * (TILE_SIZE as int)]
                } else {
                    old(self).contents_spec()[i]
                }),
            forall|off: int|
                (index as int) * (TILE_SIZE as int) <= off < (index as int) * (TILE_SIZE as int)
                    + bytes@.len() ==> final(self).covers_spec(off),
    {
        self.reader.insert_tile(index, bytes);
    }

    pub fn file_name<'a>(&'a self) -> (r: &'a str)
        ensures
            r@ == self.name_spec(),
    {
        self.reader.file_name()
    }

    pub fn get_path(&self) -> (r: String)
        ensures
            r@ == self.path_spec(),
    {
        self.reader.get_path_clone()
    }

    pub fn get_length(&self) -> (r: u64)
        ensures
            r == self.file_length_spec(),
    {
        self.reader.get_length()
    }

    /// Fill the capture buffer with the bytes of the current window.
    /// Succeeds exactly when every byte the window needs is cached; on
    /// failure it reports one missing tile-aligned range and the buffer
    /// must be treated as invalid until a later successful capture.
    pub fn capture(&mut self) -> (r: Result<(), NeedBytes>)
        requires
            old(self).wf(),
            old(self).window_pos.1 as int + old(self).window_size.1 as int <= u64::MAX as int,
            (old(self).window_pos.1 as int + old(self).window_size.1 as int) * old(
                self,
            ).line_width as int + old(self).window_pos.0 as int + old(self).window_size.0 as int
                <= u64::MAX as int,
        ensures
            final(self).wf(),
            final(self).line_width == old(self).line_width,
            final(self).group == old(self).group,
            final(self).window_pos == old(self).window_pos,
            final(self).window_size == old(self).window_size,
            final(self).vis_mode == old(self).vis_mode,
            final(self).contents_spec() == old(self).contents_spec(),
            final(self).file_length_spec() == old(self).file_length_spec(),
            final(self).name_spec() == old(self).name_spec(),
            final(self).path_spec() == old(self).path_spec(),
            forall|off: int| final(self).covers_spec(off) == old(self).covers_spec(off),
            match r {
                Ok(()) => final(self).cap_bytes() == old(self).window_spec() && (forall|off: int|
                    #[trigger] old(self).window_needs_spec(off) ==> old(self).covers_spec(off)),
                Err(nb) => exists|off: int|
                    {
                        &&& #[trigger] old(self).window_needs_spec(off)
                        &&& !old(self).covers_spec(off)
                        &&& nb.offset as int == off - off % (TILE_SIZE as int)
                        &&& nb.len as int == tile_len(
                            old(self).file_length_spec() as int,
                            off / (TILE_SIZE as int),
                        )
                    },
            },
            (forall|off: int|
                #[trigger] old(self).window_needs_spec(off) ==> old(self).covers_spec(off))
                ==> r is Ok,
    {
        let mut buf: Vec<u8> = Vec::new();
        let x = self.window_pos.0;
        let y = self.window_pos.1;
        let w = self.window_size.0;
        let h = self.window_size.1;
        let lw = self.line_width;
        let r = self.reader.get_window((x, y, w, h), lw, &mut buf);
        proof {
            if r is Ok {
                assert(buf@ == win_seq(
                    self.reader.contents(),
                    x as int,
                    y as int,
                    w as int,
                    h as int,
                    lw as int,
                ));
            }
        }
        self.capture = buf;
        proof {
            let gfl = self.reader.file_length() as int;
            if r is Ok {
                assert(self.cap_bytes() == old(self).window_spec());
                assert forall|off: int| #[trigger] old(self).window_needs_spec(off)
                    implies old(self).covers_spec(off) by {
                    assert(win_needs(
                        gfl,
                        x as int,
                        y as int,
                        w as int,
                        h as int,
                        lw as int,
                        off,
                    ));
                }
            }
            match r {
                Ok(()) => {},
                Err(nb) => {
                    let woff = choose|off: int|
                        {
                            &&& #[trigger] win_needs(
                                gfl,
                                x as int,
                                y as int,
                                w as int,
                                h as int,
                                lw as int,
                                off,
                            )
                            &&& !self.reader.covers(off)
                            &&& nb.offset as int == off - off % (TILE_SIZE as int)
                            &&& nb.len as int == tile_len(gfl, off / (TILE_SIZE as int))
                        };
                    assert(old(self).window_needs_spec(woff));
                    assert(!old(self).covers_spec(woff));
                },
            }
            if (forall|off: int|
                #[trigger] old(self).window_needs_spec(off) ==> old(self).covers_spec(off)) {
                assert forall|off: int|
                    #[trigger] win_needs(
                        gfl,
                        x as int,
                        y as int,
                        w as int,
                        h as int,
                        lw as int,
                        off,
                    ) implies self.reader.covers(off) by {
                    assert(old(self).window_needs_spec(off));
                }
                assert(r is Ok);
            }
        }
        r
    }

    /// The offset-label column width for layout: the digits plus the
    /// fixed `0x` prefix.
    pub fn get_row_offsets_width(&self) -> (r: usize)
        ensures
            r == (if self.file_length_spec() > u32::MAX {
                18usize
            } else {
                10usize
            }),
    {
        if self.reader.use_large_addresses() {
            16 + 2
        } else {
            8 + 2
        }
    }

    /// How many whole lines of `line_width` bytes the file holds; a
    /// trailing partial line is not counted.
    pub fn get_lines_in_file(&self) -> (r: u64)
        requires
            self.line_width >= 1,
        ensures
            r == self.file_length_spec() / self.line_width,
    {
        self.reader.get_length() / self.line_width
    }

    /// The formatted offset labels for the rows present in the capture
    /// buffer: `min(h, ceil(len/w))` labels, the `i`-th carrying the
    /// absolute byte address `(y + i) * line_width`, 16 digits in
    /// large-address mode and 8 otherwise.
    #[verifier::loop_isolation(false)]
    pub fn row_offset_strings(&self) -> (r: Vec<String>)
        requires
            self.window_size.0 >= 1,
            self.window_pos.1 as int + self.window_size.1 as int <= u64::MAX as int,
            (self.window_pos.1 as int + self.window_size.1 as int) * self.line_width as int
                <= u64::MAX as int,
        ensures
            r@.len() == offset_count(
                self.cap_bytes().len() as int,
                self.window_size.0 as int,
                self.window_size.1 as int,
            ),
            forall|i: int|
                0 <= i < r@.len() ==> (#[trigger] r@[i])@ == offset_string(
                    (self.window_pos.1 as int + i) * self.line_width as int,
                    self.file_length_spec() > u32::MAX,
                ),
    {
        let w = self.window_size.0 as usize;
        let h = self.window_size.1 as usize;
        let y = self.window_pos.1;
        let lw = self.line_width;
        let large = self.reader.use_large_addresses();
        let cap_len = self.capture.len();
        proof {
            lemma_fundamental_div_mod(cap_len as int, w as int);
            lemma_mod_bound(cap_len as int, w as int);
            lemma_mul_inequality(1, w as int, (cap_len as int) / (w as int));
            assert(((cap_len as int) / (w as int)) * (w as int) <= cap_len as int);
            assert((cap_len as int) / (w as int) <= ((cap_len as int) / (w as int)) * (w as int));
        }
        let mut capture_height = cap_len / w;
        if capture_height * w < cap_len {
            capture_height = capture_height + 1;
        }
        let height = if h < capture_height {
            h
        } else {
            capture_height
        };
        proof {
            assert(height as int == offset_count(cap_len as int, w as int, h as int));
        }
        let mut out: Vec<String> = Vec::new();
        let mut i: usize = 0;
        while i < height
            invariant
                i <= height,
                out@.len() == i,
                forall|k: int|
                    0 <= k < i ==> (#[trigger] out@[k])@ == offset_string(
                        (y as int + k) * lw as int,
                        large,
                    ),
            decreases height - i,
        {
            proof {
                lemma_mul_inequality(y as int + i as int, y as int + h as int, lw as int);
            }
            let off = (y + i as u64) * lw;
            let label = format_offset(off, large);
            out.push(label);
            i = i + 1;
        }
        out
    }

    /// Drive an offsets sink over the capture buffer: one `offset` call
    /// per present row, carrying exactly the labels of
    /// `row_offset_strings` in order, then one `end` call.
    pub fn visit_row_offsets<V: OffsetsVisitor>(&self, visitor: &mut V)
        requires
            self.window_size.0 >= 1,
            self.window_pos.1 as int + self.window_size.1 as int <= u64::MAX as int,
            (self.window_pos.1 as int + self.window_size.1 as int) * self.line_width as int
                <= u64::MAX as int,
    {
        let labels = self.row_offset_strings();
        let mut i: usize = 0;
        while i < labels.len()
            decreases labels@.len() - i,
        {
            visitor.offset(labels[i].as_str());
            i = i + 1;
        }
        visitor.end();
    }

    /// The event stream of the hex-byte and visual traversals over the
    /// current capture buffer: every byte in order, a line break after
    /// each `w`-th byte, and a group break after bytes at absolute columns
    /// that are multiples of the group size. Grouping follows the absolute
    /// column `x + p`, so horizontal scrolling keeps a globally consistent
    /// alignment.
    #[verifier::loop_isolation(false)]
    pub fn stream_tokens(&self) -> (r: Vec<StreamToken>)
        requires
            self.window_size.0 >= 1,
            self.group >= 1,
            self.window_pos.0 as int + self.window_size.0 as int <= u64::MAX as int,
        ensures
            r@ == stream_spec(
                self.cap_bytes(),
                self.window_pos.0 as int,
                self.window_size.0 as int,
                self.group as int,
            ),
    {
        let ghost gs = self.cap_bytes();
        let x = self.window_pos.0;
        let w = self.window_size.0 as u64;
        let g = self.group as u64;
        let mut out: Vec<StreamToken> = Vec::new();
        let mut i: u64 = 0;
        let mut n: usize = 0;
        while n < self.capture.len()
            invariant
                n <= self.capture.len(),
                0 <= i < w,
                i as int == (n as int) % (w as int),
                stream_spec(gs, x as int, w as int, g as int) == out@ + stream_from(
                    gs,
                    n as int,
                    x as int,
                    w as int,
                    g as int,
                ),
            decreases self.capture.len() - n,
        {
            let b = self.capture[n];
            let p = i + 1;
            out.push(StreamToken::Byte(b));
            if p == w {
                out.push(StreamToken::LineBreak);
                i = 0;
            } else {
                if (x + p) % g == 0 {
                    out.push(StreamToken::GroupBreak);
                }
                i = p;
            }
            proof {
                let ni = n as int;
                let wi = w as int;
                lemma_fundamental_div_mod(ni, wi);
                if p == w {
                    assert((ni / wi + 1) * wi == (ni / wi) * wi + wi) by (nonlinear_arith);
                    lemma_fundamental_div_mod_converse(ni + 1, wi, ni / wi + 1, 0);
                } else {
                    lemma_fundamental_div_mod_converse(ni + 1, wi, ni / wi, ni % wi + 1);
                }
                assert(stream_from(gs, ni, x as int, wi, g as int) =~= seq![
                    StreamToken::Byte(gs[ni]),
                ] + sep_after(ni % wi + 1, x as int, wi, g as int) + stream_from(
                    gs,
                    ni + 1,
                    x as int,
                    wi,
                    g as int,
                ));
                assert(stream_spec(gs, x as int, wi, g as int) =~= out@ + stream_from(
                    gs,
                    ni + 1,
                    x as int,
                    wi,
                    g as int,
                ));
            }
            n = n + 1;
        }
        proof {
            assert(stream_spec(gs, x as int, w as int, g as int) =~= out@);
        }
        out
    }

    /// Drive a hex sink over the capture buffer: exactly the events of
    /// `stream_tokens` in order -- `byte` with the byte's value, `group`,
    /// `next_line` -- then one `end` call.
    pub fn visit_hex<V: HexVisitor>(&self, visitor: &mut V)
        requires
            self.window_size.0 >= 1,
            self.group >= 1,
            self.window_pos.0 as int + self.window_size.0 as int <= u64::MAX as int,
    {
        let tokens = self.stream_tokens();
        let mut k: usize = 0;
        while k < tokens.len()
            decreases tokens@.len() - k,
        {
            match tokens[k] {
                StreamToken::Byte(b) => visitor.byte(b as usize),
                StreamToken::GroupBreak => visitor.group(),
                StreamToken::LineBreak => visitor.next_line(),
            }
            k = k + 1;
        }
        visitor.end();
    }

    /// Drive a visual sink over the capture buffer: the same events as
    /// `visit_hex`, with `visual_element` carrying the byte's value for
    /// glyph lookup, then one `end` call.
    pub fn visit_visual<V: VisualVisitor>(&self, visitor: &mut V)
        requires
            self.window_size.0 >= 1,
            self.group >= 1,
            self.window_pos.0 as int + self.window_size.0 as int <= u64::MAX as int,
    {
        let tokens = self.stream_tokens();
        let mut k: usize = 0;
        while k < tokens.len()
            decreases tokens@.len() - k,
        {
            match tokens[k] {
                StreamToken::Byte(b) => visitor.visual_element(b as usize),
                StreamToken::GroupBreak => visitor.group(),
                StreamToken::LineBreak => visitor.next_line(),
            }
            k = k + 1;
        }
        visitor.end();
    }

    /// The glyph of the mode-selected table for one byte value. Unicode
    /// mode uses the Unicode table; Ascii and Off both use the Ascii
    /// table.
    fn vis_glyph(&self, b: u8) -> (c: char)
        ensures
            c == mode_glyph_char(self.vis_mode, b),
    {
        match self.vis_mode {
            VisualMode::Unicode => unicode_glyph(b),
            VisualMode::Ascii => ascii_glyph(b),
            VisualMode::Off => ascii_glyph(b),
        }
    }

    /// Apply a callback to every byte value's (category, two-hex-digit
    /// rendering) pair, in byte order, collecting the results.
    #[verifier::loop_isolation(false)]
    pub fn map_hex_table<T, F: Fn(ByteCategory, String) -> T>(&self, callback: F) -> (r: Vec<T>)
        requires
            forall|c: ByteCategory, t: String| #[trigger] callback.requires((c, t)),
        ensures
            r@.len() == 256,
            forall|i: int| 0 <= i < 256 ==> #[trigger] hex_table_entry(callback, i, r@[i]),
    {
        let mut out: Vec<T> = Vec::new();
        let mut i: usize = 0;
        while i < 256
            invariant
                i <= 256,
                out@.len() == i,
                forall|k: int| 0 <= k < i ==> #[trigger] hex_table_entry(callback, k, out@[k]),
            decreases 256 - i,
        {
            let b = i as u8;
            let cat = byte_category(b);
            let hx = hex_byte_string(b);
            let ghost ghx = hx;
            let v = callback(cat, hx);
            proof {
                assert(callback.ensures((cat, ghx), v));
            }
            let ghost pre = out@;
            out.push(v);
            proof {
                let ki = i as int;
                assert(b == ki as u8);
                assert forall|k: int| 0 <= k < ki + 1 implies #[trigger] hex_table_entry(
                    callback,
                    k,
                    out@[k],
                ) by {
                    if k == ki {
                        assert(ghx@ == hex_byte_chars(k as u8));
                        assert(out@[k] == v);
                        assert(category_of(k as u8) == cat);
                        assert(callback.ensures((category_of(k as u8), ghx), out@[k]));
                    } else {
                        assert(out@[k] == pre[k]);
                        assert(hex_table_entry(callback, k, pre[k]));
                    }
                }
            }
            i = i + 1;
        }
        out
    }

    /// Apply a callback to every byte value's (category, mode-selected
    /// glyph) pair, in byte order, collecting the results.
    #[verifier::loop_isolation(false)]
    pub fn map_visual_table<T, F: Fn(ByteCategory, char) -> T>(&self, callback: F) -> (r: Vec<T>)
        requires
            forall|c: ByteCategory, t: char| #[trigger] callback.requires((c, t)),
        ensures
            r@.len() == 256,
            forall|i: int|
                0 <= i < 256 ==> #[trigger] callback.ensures(
                    (category_of(i as u8), mode_glyph_char(self.vis_mode, i as u8)),
                    r@[i],
                ),
    {
        let mut out: Vec<T> = Vec::new();
        let mut i: usize = 0;
        while i < 256
            invariant
                i <= 256,
                out@.len() == i,
                forall|k: int|
                    0 <= k < i ==> #[trigger] callback.ensures(
                        (category_of(k as u8), mode_glyph_char(self.vis_mode, k as u8)),
                        out@[k],
                    ),
            decreases 256 - i,
        {
            let b = i as u8;
            let cat = byte_category(b);
            let gl = self.vis_glyph(b);
            let v = callback(cat, gl);
            out.push(v);
            i = i + 1;
        }
        out
    }

    pub fn set_visual_mode(&mut self, mode: VisualMode)
        ensures
            final(self).vis_mode == mode,
            final(self).reader == old(self).reader,
            final(self).line_width == old(self).line_width,
            final(self).group == old(self).group,
            final(self).window_pos == old(self).window_pos,
            final(self).window_size == old(self).window_size,
            final(self).capture == old(self).capture,
    {
        self.vis_mode = mode;
    }

    pub fn get_visual_mode(&self) -> (r: &VisualMode)
        ensures
            *r == self.vis_mode,
    {
        &self.vis_mode
    }
}

/// The glyph the active table shows for a byte in the given mode.
pub open spec fn mode_glyph_char(mode: VisualMode, b: u8) -> char {
    match mode {
        VisualMode::Unicode => unicode_glyph_char(b),
        VisualMode::Ascii => ascii_glyph_char(b),
        VisualMode::Off => ascii_glyph_char(b),
    }
}

/// Number of line-break events in a traversal event stream.
pub open spec fn count_line_breaks(toks: Seq<StreamToken>) -> int
    decreases toks.len(),
{
    if toks.len() == 0 {
        0
    } else {
        (if toks[0] is LineBreak {
            1int
        } else {
            0int
        }) + count_line_breaks(toks.drop_first())
    }
}

proof fn lemma_count_lb_concat(a: Seq<StreamToken>, b: Seq<StreamToken>)
    ensures
        count_line_breaks(a + b) == count_line_breaks(a) + count_line_breaks(b),
    decreases a.len(),
{
    if a.len() == 0 {
        assert(a + b =~= b);
    } else {
        assert((a + b).drop_first() =~= a.drop_first() + b);
        assert((a + b)[0] == a[0]);
        lemma_count_lb_concat(a.drop_first(), b);
    }
}

proof fn lemma_count_from(s: Seq<u8>, n: int, x: int, w: int, g: int)
    requires
        w >= 1,
        g >= 1,
        0 <= n <= s.len(),
    ensures
        count_line_breaks(stream_from(s, n, x, w, g)) == s.len() as int / w - n / w,
    decreases s.len() - n,
{
    if n == s.len() {
    } else {
        lemma_count_from(s, n + 1, x, w, g);
        lemma_fundamental_div_mod(n, w);
        lemma_mod_bound(n, w);
        if n % w == w - 1 {
            assert((n / w + 1) * w == w * (n / w) + w) by (nonlinear_arith);
            lemma_fundamental_div_mod_converse(n + 1, w, n / w + 1, 0);
        } else {
            assert((n / w) * w == w * (n / w)) by (nonlinear_arith);
            lemma_fundamental_div_mod_converse(n + 1, w, n / w, n % w + 1);
        }
        let head = seq![StreamToken::Byte(s[n])];
        let sep = sep_after(n % w + 1, x, w, g);
        let rest = stream_from(s, n + 1, x, w, g);
        assert(stream_from(s, n, x, w, g) =~= head + sep + rest);
        lemma_count_lb_concat(head + sep, rest);
        lemma_count_lb_concat(head, sep);
        assert(count_line_breaks(Seq::<StreamToken>::empty()) == 0);
        assert(head.drop_first() =~= Seq::<StreamToken>::empty());
        assert(count_line_breaks(head) == 0);
        if n % w + 1 == w {
            assert(sep =~= seq![StreamToken::LineBreak]);
            assert(sep.drop_first() =~= Seq::<StreamToken>::empty());
            assert(count_line_breaks(sep) == 1);
        } else if (x + n % w + 1) % g == 0 {
            assert(sep =~= seq![StreamToken::GroupBreak]);
            assert(sep.drop_first() =~= Seq::<StreamToken>::empty());
            assert(count_line_breaks(sep) == 0);
        } else {
            assert(count_line_breaks(sep) == 0);
        }
    }
}

/// Hex and visual traversals break lines exactly once per `w` bytes
/// consumed -- `len / w` times over the whole capture -- and the
/// separator slot after a byte never carries a line break and a group
/// break at once: a line's end is not also a group boundary.
pub proof fn lemma_line_breaks(s: Seq<u8>, x: int, w: int, g: int)
    requires
        w >= 1,
        g >= 1,
    ensures
        count_line_breaks(stream_spec(s, x, w, g)) == s.len() as int / w,
        forall|p: int|
            (#[trigger] sep_after(p, x, w, g)).contains(StreamToken::LineBreak) <==> p == w,
        forall|p: int| p == w ==> !sep_after(p, x, w, g).contains(StreamToken::GroupBreak),
{
    lemma_count_from(s, 0, x, w, g);
    assert(0int / w == 0) by {
        vstd::arithmetic::div_mod::lemma_div_of0(w);
    }
    assert forall|p: int| (#[trigger] sep_after(p, x, w, g)).contains(StreamToken::LineBreak)
        <==> p == w by {
        if p == w {
            assert(sep_after(p, x, w, g)[0] == StreamToken::LineBreak);
            assert(sep_after(p, x, w, g).contains(StreamToken::LineBreak));
        }
    }
}

/// Row-offset traversal emits exactly `min(h, ceil(cap_len / w))`
/// labels; the label values start at `y * lw` and increase by exactly
/// `lw` from each row to the next.
pub proof fn lemma_row_offset_progression(cap_len: int, w: int, h: int, y: int, lw: int)
    requires
        w >= 1,
        cap_len >= 0,
    ensures
        offset_count(cap_len, w, h) == (if (cap_len + w - 1) / w < h {
            (cap_len + w - 1) / w
        } else {
            h
        }),
        forall|i: int| #[trigger] ((y + i + 1) * lw) == (y + i) * lw + lw,
{
    lemma_fundamental_div_mod(cap_len, w);
    lemma_mod_bound(cap_len, w);
    let q = cap_len / w;
    let r = cap_len % w;
    if r == 0 {
        lemma_div_multiples_vanish_fancy(q, w - 1, w);
        assert(cap_len + w - 1 == w * q + (w - 1));
    } else {
        assert(w * (q + 1) == w * q + w) by (nonlinear_arith);
        assert(cap_len + w - 1 == w * (q + 1) + (r - 1));
        lemma_div_multiples_vanish_fancy(q + 1, r - 1, w);
    }
    assert forall|i: int| #[trigger] ((y + i + 1) * lw) == (y + i) * lw + lw by {
        assert((y + i + 1) * lw == (y + i) * lw + lw) by (nonlinear_arith);
    }
}

/// Crossing the 32-bit length threshold changes an offset label's width
/// from 10 to 18 characters (8 vs 16 hex digits after the fixed `0x`
/// prefix); the offset value being formatted is unchanged.
pub proof fn lemma_offset_width(v: int)
    ensures
        offset_string(v, false).len() == 10,
        offset_string(v, true).len() == 18,
{
    lemma_hex_chars_len(v, 8);
    lemma_hex_chars_len(v, 16);
}

proof fn lemma_hex_chars_len(v: int, n: nat)
    ensures
        hex_chars(v, n).len() == n,
    decreases n,
{
    if n > 0 {
        lemma_hex_chars_len(v / 16, (n - 1) as nat);
    }
}

} // verus!
