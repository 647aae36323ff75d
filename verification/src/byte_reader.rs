//! A tiled byte reader: holds file metadata and a bounded cache of aligned
//! byte tiles, and answers windowed extraction queries against that cache.
//! It performs no I/O itself: when a requested window needs bytes that are
//! not cached it reports the missing tile-aligned range, and the owner of
//! the actual file hands the bytes back through `insert_tile`.

use vstd::prelude::*;
use vstd::arithmetic::div_mod::{lemma_fundamental_div_mod, lemma_mod_bound};
use vstd::arithmetic::mul::lemma_mul_inequality;

verus! {

/// Number of bytes in one cache tile.
pub const TILE_SIZE: u64 = 4096;

/// Most tiles the cache holds before the oldest is discarded.
pub const TILE_CAP: usize = 1024;

/// A read request: the window needs bytes that are not cached. `offset` is
/// tile-aligned; reading `len` bytes there and handing them to
/// `insert_tile` lets the query make progress.
#[derive(Copy, Clone, Debug, PartialEq, Eq, Structural)]
pub struct NeedBytes {
    pub offset: u64,
    pub len: u64,
}

/// Length of the tile with the given index in a file of length `len`:
/// a full tile, or the tail of the file for the last tile.
pub open spec fn tile_len(len: int, index: int) -> int {
    if len - index * (TILE_SIZE as int) < TILE_SIZE as int {
        len - index * (TILE_SIZE as int)
    } else {
        TILE_SIZE as int
    }
}

/// The clipped byte range of the row at absolute grid row `ry`: the bytes
/// at `[ry*lw + x, ry*lw + x + w)`, intersected with the file.
pub open spec fn row_seq(data: Seq<u8>, x: int, ry: int, w: int, lw: int) -> Seq<u8> {
    let start = ry * lw + x;
    if start >= data.len() {
        Seq::empty()
    } else if start + w <= data.len() {
        data.subrange(start, start + w)
    } else {
        data.subrange(start, data.len() as int)
    }
}

/// The bytes a window captures: the clipped rows `y, y+1, ...` in order,
/// stopping at the first row that starts at or past end-of-file, and at
/// most `h` rows.
pub open spec fn win_seq(data: Seq<u8>, x: int, y: int, w: int, h: int, lw: int) -> Seq<u8>
    decreases h,
{
    if h <= 0 {
        Seq::empty()
    } else if y * lw + x >= data.len() {
        Seq::empty()
    } else {
        row_seq(data, x, y, w, lw) + win_seq(data, x, y + 1, w, h - 1, lw)
    }
}

/// Whether the byte at file offset `off` is part of what the window
/// captures.
pub open spec fn win_needs(len: int, x: int, y: int, w: int, h: int, lw: int, off: int) -> bool
    decreases h,
{
    if h <= 0 {
        false
    } else {
        let start = y * lw + x;
        if start >= len {
            false
        } else {
            let end = if start + w <= len {
                start + w
            } else {
                len
            };
            (start <= off < end) || win_needs(len, x, y + 1, w, h - 1, lw, off)
        }
    }
}

struct Tile {
    index: u64,
    bytes: Vec<u8>,
}

impl Tile {
    spec fn inv(self, len: int, data: Seq<u8>) -> bool {
        &&& (self.index as int) * (TILE_SIZE as int) < len
        &&& self.bytes@.len() == tile_len(len, self.index as int)
        &&& forall|j: int|
            0 <= j < self.bytes@.len() ==> self.bytes@[j] == data[(self.index as int) * (
            TILE_SIZE as int) + j]
    }
}

/// The tiled reader: file metadata plus the tile cache. The ghost `data`
/// field models the file's bytes as this reader has been told them; every
/// cached tile agrees with it.
pub struct TilingByteReader {
    path: String,
    name: String,
    length: u64,
    tiles: Vec<Tile>,
    data: Ghost<Seq<u8>>,
}

impl TilingByteReader {
    /// The modelled file contents; one byte per file offset.
    pub closed spec fn contents(self) -> Seq<u8> {
        self.data@
    }

    /// The file length as of the last open or reopen.
    pub closed spec fn file_length(self) -> u64 {
        self.length
    }

    pub closed spec fn name_spec(self) -> Seq<char> {
        self.name@
    }

    pub closed spec fn path_spec(self) -> Seq<char> {
        self.path@
    }

    /// Whether the byte at file offset `off` is available from the cache.
    pub closed spec fn covers(self, off: int) -> bool {
        &&& 0 <= off < self.length
        &&& exists|k: int|
            0 <= k < self.tiles@.len() && (#[trigger] self.tiles@[k].index) as int == off / (
            TILE_SIZE as int)
    }

    /// The reader's invariant: the model matches the recorded length, the
    /// cache is bounded, every tile is in bounds, sized to the file, agrees
    /// with the model, and no two tiles share an index.
    pub closed spec fn wf(self) -> bool {
        &&& self.data@.len() == self.length
        &&& self.tiles@.len() <= TILE_CAP
        &&& forall|k: int|
            0 <= k < self.tiles@.len() ==> (#[trigger] self.tiles@[k]).inv(
                self.length as int,
                self.data@,
            )
        &&& forall|k1: int, k2: int|
            0 <= k1 < k2 < self.tiles@.len() ==> self.tiles@[k1].index != self.tiles@[k2].index
    }

    /// A fresh reader for a file with the given path, display name and
    /// length, with an empty cache. The modelled contents start as zero
    /// bytes; they are never served until the corresponding tiles have been
    /// inserted.
    pub fn new(path: String, name: String, length: u64) -> (r: TilingByteReader)
        ensures
            r.wf(),
            r.file_length() == length,
            r.path_spec() == path@,
            r.name_spec() == name@,
            forall|off: int| !r.covers(off),
    {
        TilingByteReader {
            path,
            name,
            length,
            tiles: Vec::new(),
            data: Ghost(Seq::new(length as nat, |i: int| 0u8)),
        }
    }

    /// Adopt a freshly measured file length and invalidate every cached
    /// tile: the file may have been truncated, grown or replaced, so stale
    /// tiles would silently corrupt later windows.
    pub fn reopen(&mut self, new_length: u64)
        requires
            old(self).wf(),
        ensures
            final(self).wf(),
            final(self).file_length() == new_length,
            final(self).path_spec() == old(self).path_spec(),
            final(self).name_spec() == old(self).name_spec(),
            forall|off: int| !final(self).covers(off),
    {
        self.tiles = Vec::new();
        self.length = new_length;
        self.data = Ghost(Seq::new(new_length as nat, |i: int| 0u8));
    }

    pub fn get_length(&self) -> (r: u64)
        ensures
            r == self.file_length(),
    {
        self.length
    }

    /// Whether addressing the file takes more than 32 bits, which decides
    /// between 16- and 8-digit offset labels.
    pub fn use_large_addresses(&self) -> (r: bool)
        ensures
            r == (self.file_length() > u32::MAX),
    {
        self.length > 0xFFFF_FFFFu64
    }

    pub fn file_name<'a>(&'a self) -> (r: &'a str)
        ensures
            r@ == self.name_spec(),
    {
        self.name.as_str()
    }

    pub fn get_path_clone(&self) -> (r: String)
        ensures
            r@ == self.path_spec(),
    {
        self.path.clone()
    }

    /// The cached byte at a file offset, if its tile is cached.
    fn lookup(&self, off: u64) -> (r: Option<u8>)
        requires
            self.wf(),
            off < self.file_length(),
        ensures
            match r {
                Some(b) => self.covers(off as int) && b == self.contents()[off as int],
                None => !self.covers(off as int),
            },
    {
        let idx = off / TILE_SIZE;
        let mut k: usize = 0;
        while k < self.tiles.len()
            invariant
                self.wf(),
                off < self.file_length(),
                idx == off as int / (TILE_SIZE as int),
                k <= self.tiles@.len(),
                forall|k2: int| 0 <= k2 < k ==> (#[trigger] self.tiles@[k2].index) != idx,
            decreases self.tiles@.len() - k,
        {
            if self.tiles[k].index == idx {
                proof {
                    lemma_fundamental_div_mod(off as int, TILE_SIZE as int);
                    lemma_mod_bound(off as int, TILE_SIZE as int);
                }
                let j = (off % TILE_SIZE) as usize;
                assert(self.tiles@[k as int].inv(self.length as int, self.data@));
                assert((idx as int) * (TILE_SIZE as int) + j == off);
                assert(off as int - (idx as int) * (TILE_SIZE as int) < tile_len(
                    self.length as int,
                    idx as int,
                ));
                return Some(self.tiles[k].bytes[j]);
            }
            k += 1;
        }
        None
    }

    /// Insert the bytes of one tile, read by the owner of the file. The
    /// model is updated to these bytes; an existing tile with the same
    /// index is replaced, and when the cache is full the oldest tile is
    /// discarded first.
    pub fn insert_tile(&mut self, index: u64, bytes: Vec<u8>)
        requires
            old(self).wf(),
            (index as int) * (TILE_SIZE as int) < old(self).file_length(),
            bytes@.len() == tile_len(old(self).file_length() as int, index as int),
        ensures
            final(self).wf(),
            final(self).file_length() == old(self).file_length(),
            final(self).path_spec() == old(self).path_spec(),
            final(self).name_spec() == old(self).name_spec(),
            final(self).contents().len() == old(self).contents().len(),
            forall|i: int|
                0 <= i < final(self).contents().len() ==> final(self).contents()[i] == (if (
                index as int) * (TILE_SIZE as int) <= i < (index as int) * (TILE_SIZE as int)
                    + bytes@.len() {
                    bytes@[i - (index as int) * (TILE_SIZE as int)]
                } else {
                    old(self).contents()[i]
                }),
            forall|off: int|
                (index as int) * (TILE_SIZE as int) <= off < (index as int) * (TILE_SIZE as int)
                    + bytes@.len() ==> final(self).covers(off),
            forall|off: int|
                final(self).covers(off) ==> old(self).covers(off) || off / (TILE_SIZE as int)
                    == index as int,
    {
        let ghost base = (index as int) * (TILE_SIZE as int);
        let ghost new_data = Seq::new(
            old(self).data@.len(),
            |i: int|
                if base <= i < base + bytes@.len() {
                    bytes@[i - base]
                } else {
                    old(self).data@[i]
                },
        );
        // Drop any tile that already has this index.
        let mut k: usize = 0;
        let mut found: bool = false;
        let mut found_at: usize = 0;
        while k < self.tiles.len()
            invariant
                k <= self.tiles@.len(),
                found ==> found_at < k && self.tiles@[found_at as int].index == index,
                !found ==> forall|k2: int|
                    0 <= k2 < k ==> (#[trigger] self.tiles@[k2].index) != index,
            decreases self.tiles@.len() - k,
        {
            if self.tiles[k].index == index {
                found = true;
                found_at = k;
                k = self.tiles.len();
            } else {
                k += 1;
            }
        }
        if found {
            self.tiles.remove(found_at);
        } else if self.tiles.len() == TILE_CAP {
            self.tiles.remove(0);
        }
        proof {
            // After removal no remaining tile carries this index, every
            // remaining tile stood in the old cache, and the indices are
            // still pairwise distinct.
            assert forall|k2: int|
                0 <= k2 < self.tiles@.len() implies (#[trigger] self.tiles@[k2].index) != index
                && exists|k3: int|
                0 <= k3 < old(self).tiles@.len() && old(self).tiles@[k3] == self.tiles@[k2] by {
                if found {
                    if k2 < found_at {
                        assert(old(self).tiles@[k2] == self.tiles@[k2]);
                    } else {
                        assert(old(self).tiles@[k2 + 1] == self.tiles@[k2]);
                    }
                } else if old(self).tiles@.len() == TILE_CAP {
                    assert(old(self).tiles@[k2 + 1] == self.tiles@[k2]);
                } else {
                    assert(old(self).tiles@[k2] == self.tiles@[k2]);
                }
            }
            assert forall|k1: int, k2: int|
                0 <= k1 < k2 < self.tiles@.len() implies self.tiles@[k1].index
                != self.tiles@[k2].index by {
                if found {
                    let m1 = if k1 < found_at { k1 } else { k1 + 1 };
                    let m2 = if k2 < found_at { k2 } else { k2 + 1 };
                    assert(old(self).tiles@[m1] == self.tiles@[k1]);
                    assert(old(self).tiles@[m2] == self.tiles@[k2]);
                } else if old(self).tiles@.len() == TILE_CAP {
                    assert(old(self).tiles@[k1 + 1] == self.tiles@[k1]);
                    assert(old(self).tiles@[k2 + 1] == self.tiles@[k2]);
                } else {
                    assert(old(self).tiles@[k1] == self.tiles@[k1]);
                    assert(old(self).tiles@[k2] == self.tiles@[k2]);
                }
            }
        }
        let ghost trimmed = self.tiles@;
        self.tiles.push(Tile { index, bytes });
        self.data = Ghost(new_data);
        proof {
            let ts = TILE_SIZE as int;
            let blen = bytes@.len() as int;
            assert forall|k2: int| 0 <= k2 < self.tiles@.len() implies (
            #[trigger] self.tiles@[k2]).inv(self.length as int, self.data@) by {
                let t = self.tiles@[k2];
                if k2 == self.tiles@.len() - 1 {
                    assert(t.index == index && t.bytes@ == bytes@);
                    assert(forall|j: int| 0 <= j < blen ==> new_data[base + j] == bytes@[j]);
                } else {
                    assert(t == trimmed[k2]);
                    let k3 = choose|k3: int|
                        0 <= k3 < old(self).tiles@.len() && old(self).tiles@[k3] == t;
                    assert(t.inv(self.length as int, old(self).data@));
                    assert(t.index != index);
                    let ti = t.index as int;
                    // Tiles with different indices occupy disjoint byte
                    // ranges, so this tile still agrees with the model.
                    if ti < index as int {
                        lemma_mul_inequality(ti + 1, index as int, ts);
                        assert((ti + 1) * ts == ti * ts + ts) by (nonlinear_arith);
                        assert(ti * ts + t.bytes@.len() <= base);
                    } else {
                        lemma_mul_inequality(index as int + 1, ti, ts);
                        assert((index as int + 1) * ts == (index as int) * ts + ts)
                            by (nonlinear_arith);
                        assert(base + blen <= ti * ts);
                    }
                    assert forall|j: int| 0 <= j < t.bytes@.len() implies #[trigger] t.bytes@[j]
                        == new_data[ti * ts + j] by {
                        assert(t.bytes@[j] == old(self).data@[ti * ts + j]);
                    }
                }
            }
            assert forall|off: int| base <= off < base + blen implies self.covers(off) by {
                let k2 = self.tiles@.len() - 1;
                assert(self.tiles@[k2].index == index);
                assert((index as int) == off / ts) by {
                    vstd::arithmetic::div_mod::lemma_div_multiples_vanish_fancy(
                        index as int,
                        off - base,
                        ts,
                    );
                }
            }
            assert forall|off: int| self.covers(off) implies old(self).covers(off) || off / ts
                == index as int by {
                let k2 = choose|k2: int|
                    0 <= k2 < self.tiles@.len() && (#[trigger] self.tiles@[k2].index) as int == off
                        / ts;
                if k2 < self.tiles@.len() - 1 {
                    let t = self.tiles@[k2];
                    let k3 = choose|k3: int|
                        0 <= k3 < old(self).tiles@.len() && old(self).tiles@[k3] == t;
                    assert(old(self).tiles@[k3].index as int == off / ts);
                }
            }
        }
    }
    /// Extract the window `(x, y, w, h)` over row stride `line_width`:
    /// clear `out`, then append each row's clipped byte range in row
    /// order, stopping at the first row that starts at or past
    /// end-of-file. Succeeds when every needed byte is cached; otherwise
    /// reports one missing tile-aligned range and leaves `out` in a
    /// partial state that the caller must treat as invalid.
    #[verifier::loop_isolation(false)]
    pub fn get_window(
        &self,
        window: (u64, u64, u16, u16),
        line_width: u64,
        out: &mut Vec<u8>,
    ) -> (r: Result<(), NeedBytes>)
        requires
            self.wf(),
            window.1 as int + window.3 as int <= u64::MAX as int,
            (window.1 as int + window.3 as int) * line_width as int + window.0 as int
                + window.2 as int <= u64::MAX as int,
        ensures
            match r {
                Ok(()) => final(out)@ == win_seq(
                    self.contents(),
                    window.0 as int,
                    window.1 as int,
                    window.2 as int,
                    window.3 as int,
                    line_width as int,
                ) && (forall|off: int|
                    #[trigger] win_needs(
                        self.file_length() as int,
                        window.0 as int,
                        window.1 as int,
                        window.2 as int,
                        window.3 as int,
                        line_width as int,
                        off,
                    ) ==> self.covers(off)),
                Err(nb) => exists|off: int|
                    {
                        &&& #[trigger] win_needs(
                            self.file_length() as int,
                            window.0 as int,
                            window.1 as int,
                            window.2 as int,
                            window.3 as int,
                            line_width as int,
                            off,
                        )
                        &&& !self.covers(off)
                        &&& nb.offset as int == off - off % (TILE_SIZE as int)
                        &&& nb.len as int == tile_len(
                            self.file_length() as int,
                            off / (TILE_SIZE as int),
                        )
                    },
            },
            (forall|off: int|
                #[trigger] win_needs(
                    self.file_length() as int,
                    window.0 as int,
                    window.1 as int,
                    window.2 as int,
                    window.3 as int,
                    line_width as int,
                    off,
                ) ==> self.covers(off)) ==> r is Ok,
    {
        let (x, y, w, h) = window;
        let ghost gd = self.contents();
        let ghost gx = x as int;
        let ghost gy = y as int;
        let ghost gw = w as int;
        let ghost gh = h as int;
        let ghost glw = line_width as int;
        let ghost glen = self.length as int;
        out.clear();
        let mut r: u16 = 0;
        let mut stopped: bool = false;
        while r < h && !stopped
            invariant
                self.wf(),
                gd == self.contents(),
                glen == self.length as int,
                gd.len() == glen,
                gx == x as int && gy == y as int && gw == w as int && gh == h as int && glw
                    == line_width as int,
                gy + gh <= u64::MAX as int,
                (gy + gh) * glw + gx + gw <= u64::MAX as int,
                r <= h,
                forall|i: int| 0 <= i < r ==> #[trigger] ((gy + i) * glw) + gx < glen,
                out@ == win_seq(gd, gx, gy, gw, r as int, glw),
                forall|off: int|
                    #[trigger] win_needs(glen, gx, gy, gw, r as int, glw, off) ==> self.covers(
                        off,
                    ),
                stopped ==> out@ == win_seq(gd, gx, gy, gw, gh, glw),
                stopped ==> forall|off: int|
                    #[trigger] win_needs(glen, gx, gy, gw, gh, glw, off) ==> self.covers(off),
            decreases 2 * (gh - r as int) + (if stopped { 0int } else { 1int }),
        {
            proof {
                lemma_mul_inequality(gy + r as int, gy + gh, glw);
            }
            let start = (y + r as u64) * line_width + x;
            if start >= self.length {
                proof {
                    lemma_win_seq_stop(gd, gx, gy, gw, gh, glw, r as int);
                    assert forall|off: int| #[trigger] win_needs(glen, gx, gy, gw, gh, glw, off)
                        implies self.covers(off) by {
                        lemma_win_needs_stop(glen, gx, gy, gw, gh, glw, off, r as int);
                    }
                }
                stopped = true;
            } else {
                let row_end = if self.length - start > w as u64 {
                    start + w as u64
                } else {
                    self.length
                };
                let mut off = start;
                while off < row_end
                    invariant
                        self.wf(),
                        gd == self.contents(),
                        glen == self.length as int,
                        gd.len() == glen,
                        gx == x as int && gy == y as int && gw == w as int && gh == h as int && glw
                            == line_width as int,
                        r < h,
                        forall|i: int| 0 <= i < r ==> #[trigger] ((gy + i) * glw) + gx < glen,
                        start as int == (gy + r as int) * glw + gx,
                        (start as int) < glen,
                        row_end as int == (if start as int + gw <= glen {
                            start as int + gw
                        } else {
                            glen
                        }),
                        start <= off <= row_end,
                        out@ == win_seq(gd, gx, gy, gw, r as int, glw) + gd.subrange(
                            start as int,
                            off as int,
                        ),
                        forall|off2: int|
                            #[trigger] win_needs(glen, gx, gy, gw, r as int, glw, off2)
                                ==> self.covers(off2),
                        forall|off2: int|
                            start as int <= off2 < off as int ==> self.covers(off2),
                    decreases row_end as int - off as int,
                {
                    match self.lookup(off) {
                        Some(b) => {
                            out.push(b);
                            proof {
                                assert(gd.subrange(start as int, off as int + 1) =~= gd.subrange(
                                    start as int,
                                    off as int,
                                ).push(gd[off as int]));
                                assert(out@ =~= win_seq(gd, gx, gy, gw, r as int, glw)
                                    + gd.subrange(start as int, off as int + 1));
                            }
                            off = off + 1;
                        },
                        None => {
                            proof {
                                lemma_win_needs_mono(
                                    glen,
                                    gx,
                                    gy,
                                    gw,
                                    gh,
                                    glw,
                                    off as int,
                                    r as int,
                                );
                                lemma_fundamental_div_mod(off as int, TILE_SIZE as int);
                                lemma_mod_bound(off as int, TILE_SIZE as int);
                            }
                            let tile_start = off - off % TILE_SIZE;
                            let rem = self.length - tile_start;
                            let tl = if rem < TILE_SIZE {
                                rem
                            } else {
                                TILE_SIZE
                            };
                            proof {
                                let ts = TILE_SIZE as int;
                                let woff = off as int;
                                assert(win_needs(glen, gx, gy, gw, gh, glw, woff));
                                assert(!self.covers(woff));
                                assert(tile_start as int == woff - woff % ts);
                                assert(ts * (woff / ts) == woff - woff % ts);
                                assert(tl as int == tile_len(glen, woff / ts));
                                assert(win_needs(
                                    self.file_length() as int,
                                    window.0 as int,
                                    window.1 as int,
                                    window.2 as int,
                                    window.3 as int,
                                    line_width as int,
                                    woff,
                                ) && !self.covers(woff));
                            }
                            return Err(NeedBytes { offset: tile_start, len: tl });
                        },
                    }
                }
                proof {
                    assert forall|i: int| 0 <= i <= r as int implies #[trigger] ((gy + i) * glw)
                        + gx < glen by {
                        if i < r as int {
                        } else {
                            lemma_mul_inequality(gy + i, gy + r as int, glw);
                            lemma_mul_inequality(gy + r as int, gy + i, glw);
                        }
                    }
                    lemma_win_seq_snoc(gd, gx, gy, gw, r as int, glw);
                    assert(row_seq(gd, gx, gy + r as int, gw, glw) =~= gd.subrange(
                        start as int,
                        row_end as int,
                    ));
                    assert(out@ =~= win_seq(gd, gx, gy, gw, r as int + 1, glw));
                    assert forall|off2: int|
                        #[trigger] win_needs(glen, gx, gy, gw, r as int + 1, glw, off2)
                            implies self.covers(off2) by {
                        lemma_win_needs_snoc(glen, gx, gy, gw, r as int, glw, off2);
                    }
                }
                r = r + 1;
            }
        }
        Ok(())
    }
}

/// Appending one more live row extends the window capture by exactly that
/// row's clipped bytes.
proof fn lemma_win_seq_snoc(data: Seq<u8>, x: int, y: int, w: int, r: int, lw: int)
    requires
        0 <= r,
        0 <= w,
        forall|i: int| 0 <= i <= r ==> #[trigger] ((y + i) * lw) + x < data.len(),
    ensures
        win_seq(data, x, y, w, r + 1, lw) == win_seq(data, x, y, w, r, lw) + row_seq(
            data,
            x,
            y + r,
            w,
            lw,
        ),
    decreases r,
{
    assert((y + 0) * lw + x < data.len());
    if r == 0 {
        assert(y * lw + x < data.len());
        assert(win_seq(data, x, y + 1, w, 0, lw) =~= Seq::<u8>::empty());
        assert(win_seq(data, x, y, w, 1, lw) =~= row_seq(data, x, y, w, lw) + win_seq(
            data,
            x,
            y + 1,
            w,
            0,
            lw,
        ));
        assert(win_seq(data, x, y, w, 1, lw) =~= win_seq(data, x, y, w, 0, lw) + row_seq(
            data,
            x,
            y,
            w,
            lw,
        ));
    } else {
        assert forall|i: int| 0 <= i <= r - 1 implies #[trigger] ((y + 1 + i) * lw) + x < data.len() by {
            assert((y + (i + 1)) * lw + x < data.len());
        }
        lemma_win_seq_snoc(data, x, y + 1, w, r - 1, lw);
        assert(win_seq(data, x, y, w, r + 1, lw) =~= win_seq(data, x, y, w, r, lw) + row_seq(
            data,
            x,
            y + r,
            w,
            lw,
        ));
    }
}

/// Once a row starts at or past end-of-file, no later row contributes
/// anything: the window capture equals the capture of the live prefix of
/// rows, so no row beyond the first out-of-bounds one is appended.
pub proof fn lemma_win_seq_stop(data: Seq<u8>, x: int, y: int, w: int, h: int, lw: int, r: int)
    requires
        0 <= r <= h,
        forall|i: int| 0 <= i < r ==> #[trigger] ((y + i) * lw) + x < data.len(),
        (y + r) * lw + x >= data.len(),
    ensures
        win_seq(data, x, y, w, h, lw) == win_seq(data, x, y, w, r, lw),
    decreases r,
{
    if r == 0 {
        assert((y + 0) * lw + x >= data.len());
        assert(win_seq(data, x, y, w, h, lw) =~= win_seq(data, x, y, w, 0, lw));
    } else {
        assert((y + 0) * lw + x < data.len());
        assert forall|i: int| 0 <= i < r - 1 implies #[trigger] ((y + 1 + i) * lw) + x < data.len() by {
            assert((y + (i + 1)) * lw + x < data.len());
        }
        assert((y + 1 + (r - 1)) * lw + x >= data.len());
        lemma_win_seq_stop(data, x, y + 1, w, h - 1, lw, r - 1);
        assert(win_seq(data, x, y, w, h, lw) =~= win_seq(data, x, y, w, r, lw));
    }
}

/// A byte inside the clipped range of a live row, all of whose earlier
/// rows are live too, is part of what the window captures.
proof fn lemma_win_needs_mono(
    len: int,
    x: int,
    y: int,
    w: int,
    h: int,
    lw: int,
    off: int,
    r: int,
)
    requires
        0 <= r < h,
        forall|i: int| 0 <= i < r ==> #[trigger] ((y + i) * lw) + x < len,
        (y + r) * lw + x < len,
        (y + r) * lw + x <= off,
        off < (y + r) * lw + x + w,
        off < len,
    ensures
        win_needs(len, x, y, w, h, lw, off),
    decreases r,
{
    if r == 0 {
        assert((y + 0) * lw + x < len);
    } else {
        assert((y + 0) * lw + x < len);
        assert forall|i: int| 0 <= i < r - 1 implies #[trigger] ((y + 1 + i) * lw) + x < len by {
            assert((y + (i + 1)) * lw + x < len);
        }
        assert((y + 1 + (r - 1)) * lw + x < len);
        lemma_win_needs_mono(len, x, y + 1, w, h - 1, lw, off, r - 1);
    }
}

/// Number of leading window rows that lie fully inside the file.
pub open spec fn full_rows(len: int, x: int, y: int, w: int, h: int, lw: int) -> int
    decreases h,
{
    if h <= 0 {
        0
    } else {
        let start = y * lw + x;
        if start + w <= len {
            1 + full_rows(len, x, y + 1, w, h - 1, lw)
        } else {
            0
        }
    }
}

/// Bytes contributed by the one row that straddles end-of-file, if any.
pub open spec fn partial_row_len(len: int, x: int, y: int, w: int, h: int, lw: int) -> int
    decreases h,
{
    if h <= 0 {
        0
    } else {
        let start = y * lw + x;
        if start + w <= len {
            partial_row_len(len, x, y + 1, w, h - 1, lw)
        } else if start < len {
            len - start
        } else {
            0
        }
    }
}

/// A window that lies fully within the file captures exactly `w * h`
/// bytes.
pub proof fn lemma_full_window_len(data: Seq<u8>, x: int, y: int, w: int, h: int, lw: int)
    requires
        0 <= x,
        0 <= y,
        0 <= w,
        0 <= h,
        1 <= lw,
        h > 0 ==> (y + h - 1) * lw + x + w <= data.len(),
    ensures
        win_seq(data, x, y, w, h, lw).len() == w * h,
    decreases h,
{
    if h <= 0 {
    } else {
        let start = y * lw + x;
        lemma_mul_inequality(y, y + h - 1, lw);
        assert(start + w <= data.len());
        if start >= data.len() {
            assert(w == 0);
            assert(w * h == 0) by (nonlinear_arith)
                requires
                    w == 0,
            ;
        } else {
            assert((y + 1 + (h - 1) - 1) * lw == (y + h - 1) * lw);
            lemma_full_window_len(data, x, y + 1, w, h - 1, lw);
            assert(row_seq(data, x, y, w, lw).len() == w);
            assert(w * (h - 1) + w == w * h) by (nonlinear_arith);
        }
    }
}

/// A window that may run past end-of-file captures every fully in-bounds
/// row, then the in-bounds prefix of at most one partial row, and no
/// bytes of any later row. With `w <= lw` at most one row is partial.
pub proof fn lemma_partial_window_len(data: Seq<u8>, x: int, y: int, w: int, h: int, lw: int)
    requires
        0 <= x,
        0 <= y,
        1 <= w,
        0 <= h,
        w <= lw,
    ensures
        win_seq(data, x, y, w, h, lw).len() == full_rows(data.len() as int, x, y, w, h, lw) * w
            + partial_row_len(data.len() as int, x, y, w, h, lw),
    decreases h,
{
    let len = data.len() as int;
    if h <= 0 {
    } else {
        let start = y * lw + x;
        if start >= len {
            assert(full_rows(len, x, y, w, h, lw) == 0);
            assert(partial_row_len(len, x, y, w, h, lw) == 0);
        } else if start + w <= len {
            lemma_partial_window_len(data, x, y + 1, w, h - 1, lw);
            let f = full_rows(len, x, y + 1, w, h - 1, lw);
            assert((1 + f) * w == w + f * w) by (nonlinear_arith);
            assert(row_seq(data, x, y, w, lw).len() == w);
        } else {
            assert((y + 1) * lw + x == start + lw) by (nonlinear_arith)
                requires
                    start == y * lw + x,
            ;
            assert((y + 1) * lw + x >= len);
            assert(win_seq(data, x, y + 1, w, h - 1, lw) =~= Seq::<u8>::empty());
            assert(win_seq(data, x, y, w, h, lw).len() == len - start);
            assert(full_rows(len, x, y, w, h, lw) == 0);
            assert(0 * w == 0) by (nonlinear_arith);
            assert(partial_row_len(len, x, y, w, h, lw) == len - start);
        }
    }
}

/// With its first `r` rows live, a window of `r + 1` rows needs exactly
/// what the first `r` rows need plus the clipped range of row `r`.
proof fn lemma_win_needs_snoc(len: int, x: int, y: int, w: int, r: int, lw: int, off: int)
    requires
        0 <= r,
        forall|i: int| 0 <= i <= r ==> #[trigger] ((y + i) * lw) + x < len,
    ensures
        win_needs(len, x, y, w, r + 1, lw, off) <==> (win_needs(len, x, y, w, r, lw, off) || {
            let start = (y + r) * lw + x;
            let end = if start + w <= len {
                start + w
            } else {
                len
            };
            start <= off < end
        }),
    decreases r,
{
    assert((y + 0) * lw + x < len);
    if r == 0 {
        assert(y * lw + x < len);
        assert(!win_needs(len, x, y + 1, w, 0, lw, off));
        assert(win_needs(len, x, y, w, 1, lw, off) <==> (y * lw + x <= off < (if y * lw + x + w
            <= len {
            y * lw + x + w
        } else {
            len
        })));
    } else {
        assert forall|i: int| 0 <= i <= r - 1 implies #[trigger] ((y + 1 + i) * lw) + x < len by {
            assert((y + (i + 1)) * lw + x < len);
        }
        lemma_win_needs_snoc(len, x, y + 1, w, r - 1, lw, off);
    }
}

/// Once a row starts at or past end-of-file, later rows need nothing:
/// the window's needs equal the needs of the live prefix of rows.
proof fn lemma_win_needs_stop(len: int, x: int, y: int, w: int, h: int, lw: int, off: int, r: int)
    requires
        0 <= r <= h,
        forall|i: int| 0 <= i < r ==> #[trigger] ((y + i) * lw) + x < len,
        (y + r) * lw + x >= len,
    ensures
        win_needs(len, x, y, w, h, lw, off) == win_needs(len, x, y, w, r, lw, off),
    decreases r,
{
    if r == 0 {
        assert((y + 0) * lw + x >= len);
    } else {
        assert((y + 0) * lw + x < len);
        assert forall|i: int| 0 <= i < r - 1 implies #[trigger] ((y + 1 + i) * lw) + x < len by {
            assert((y + (i + 1)) * lw + x < len);
        }
        assert((y + 1 + (r - 1)) * lw + x >= len);
        lemma_win_needs_stop(len, x, y + 1, w, h - 1, lw, off, r - 1);
    }
}

} // verus!
