//! Pixel matrices and the bit-plane packer.
//!
//! A frame is a rectangular grid of binary pixels. Packing groups eight
//! vertically adjacent rows into the eight bits of one byte per column,
//! band-major and column-minor, and strips trailing zero bytes; unpacking
//! reverses that exactly, reading every missing trailing byte as zero.

use vstd::prelude::*;

use crate::codec;

verus! {

/// A rejected pixel matrix or packed byte array.
#[derive(Clone, Copy, Debug, PartialEq, Eq)]
pub enum FrameError {
    /// Packed data holds more bytes than the stated dimensions can carry.
    TooManyBytes,
    /// A row whose width differs from the first row's.
    RaggedRow { row: usize },
    /// A pixel value other than 0 or 1.
    BadPixel { row: usize, col: usize },
    /// Frames of differing dimensions in one corpus.
    DimensionMismatch,
    /// No frame to derive a reference frame from.
    EmptyCorpus,
}

/// A rectangular grid of binary pixel values, `height` rows of `width`
/// columns each; see `Frame::wf`.
#[derive(Debug)]
pub struct Frame {
    pub width: usize,
    pub height: usize,
    pub rows: Vec<Vec<u8>>,
}

impl View for Frame {
    type V = Seq<Seq<u8>>;

    open spec fn view(&self) -> Seq<Seq<u8>> {
        Seq::new(self.rows@.len(), |y: int| self.rows@[y]@)
    }
}

/// The pixel at (y, x) of a matrix, with anything outside the grid read
/// as 0.
pub open spec fn pix(m: Seq<Seq<u8>>, y: int, x: int) -> u8 {
    if 0 <= y < m.len() && 0 <= x < m[y].len() {
        m[y][x]
    } else {
        0
    }
}

/// How many 8-row bands a matrix of this height packs into.
pub open spec fn bands_of(height: int) -> int {
    height / 8 + if height % 8 == 0 {
        0int
    } else {
        1int
    }
}

/// The byte at index `i`, with every missing byte (in particular one
/// dropped by trailing-zero truncation) read as 0.
pub open spec fn byte_at(s: Seq<u8>, i: int) -> u8 {
    if 0 <= i < s.len() {
        s[i]
    } else {
        0
    }
}

/// The pixel that packed bytes hold for row `y`, column `x`: bit `y % 8`
/// of the byte for band `y / 8`, column `x`.
pub open spec fn unpacked_pix(bytes: Seq<u8>, width: int, y: int, x: int) -> u8 {
    (byte_at(bytes, (y / 8) * width + x) >> ((y % 8) as u8)) & 1
}

/// The packed byte for band `band`, column `x`: bit `r` holds the pixel
/// of row `8 * band + r`, rows past the bottom of the matrix read as 0.
pub open spec fn col_byte(m: Seq<Seq<u8>>, band: int, x: int) -> u8 {
    pix(m, 8 * band, x) | (pix(m, 8 * band + 1, x) << 1) | (pix(m, 8 * band + 2, x) << 2) | (pix(
        m,
        8 * band + 3,
        x,
    ) << 3) | (pix(m, 8 * band + 4, x) << 4) | (pix(m, 8 * band + 5, x) << 5) | (pix(
        m,
        8 * band + 6,
        x,
    ) << 6) | (pix(m, 8 * band + 7, x) << 7)
}

/// The full packed form of a matrix, band-major and column-minor, before
/// trailing zero bytes are stripped.
pub open spec fn packed_full(m: Seq<Seq<u8>>, width: int, bands: int) -> Seq<u8> {
    Seq::new((bands * width) as nat, |i: int| col_byte(m, i / width, i % width))
}

/// The sequence with its trailing zero bytes removed.
pub open spec fn strip_trailing_zeros(s: Seq<u8>) -> Seq<u8>
    decreases s.len(),
{
    if s.len() == 0 {
        s
    } else if s[s.len() - 1] != 0 {
        s
    } else {
        strip_trailing_zeros(s.drop_last())
    }
}

/// Stripping trailing zeros changes no byte that `byte_at` can see.
pub proof fn lemma_strip_byte_at(s: Seq<u8>, i: int)
    ensures
        byte_at(strip_trailing_zeros(s), i) == byte_at(s, i),
        strip_trailing_zeros(s).len() <= s.len(),
    decreases s.len(),
{
    if s.len() == 0 {
    } else if s[s.len() - 1] != 0 {
    } else {
        lemma_strip_byte_at(s.drop_last(), i);
        assert(byte_at(s.drop_last(), i) == byte_at(s, i));
    }
}

proof fn lemma_col_byte_bit(m: Seq<Seq<u8>>, band: int, x: int, r: int)
    requires
        0 <= r < 8,
        forall|rr: int| 0 <= rr < 8 ==> #[trigger] pix(m, 8 * band + rr, x) <= 1,
    ensures
        (col_byte(m, band, x) >> (r as u8)) & 1 == pix(m, 8 * band + r, x),
{
    let b0 = pix(m, 8 * band, x);
    let b1 = pix(m, 8 * band + 1, x);
    let b2 = pix(m, 8 * band + 2, x);
    let b3 = pix(m, 8 * band + 3, x);
    let b4 = pix(m, 8 * band + 4, x);
    let b5 = pix(m, 8 * band + 5, x);
    let b6 = pix(m, 8 * band + 6, x);
    let b7 = pix(m, 8 * band + 7, x);
    assert(pix(m, 8 * band + 0, x) <= 1);
    assert(pix(m, 8 * band + 1, x) <= 1);
    assert(pix(m, 8 * band + 2, x) <= 1);
    assert(pix(m, 8 * band + 3, x) <= 1);
    assert(pix(m, 8 * band + 4, x) <= 1);
    assert(pix(m, 8 * band + 5, x) <= 1);
    assert(pix(m, 8 * band + 6, x) <= 1);
    assert(pix(m, 8 * band + 7, x) <= 1);
    assert(b0 <= 1 && b1 <= 1 && b2 <= 1 && b3 <= 1 && b4 <= 1 && b5 <= 1 && b6 <= 1 && b7 <= 1);
    let byte = col_byte(m, band, x);
    assert(byte == b0 | (b1 << 1) | (b2 << 2) | (b3 << 3) | (b4 << 4) | (b5 << 5) | (b6 << 6) | (
    b7 << 7));
    assert(b0 <= 1 && b1 <= 1 && b2 <= 1 && b3 <= 1 && b4 <= 1 && b5 <= 1 && b6 <= 1 && b7 <= 1
        ==> {
        let v = b0 | (b1 << 1) | (b2 << 2) | (b3 << 3) | (b4 << 4) | (b5 << 5) | (b6 << 6) | (b7
            << 7);
        &&& (v >> 0u8) & 1 == b0
        &&& (v >> 1u8) & 1 == b1
        &&& (v >> 2u8) & 1 == b2
        &&& (v >> 3u8) & 1 == b3
        &&& (v >> 4u8) & 1 == b4
        &&& (v >> 5u8) & 1 == b5
        &&& (v >> 6u8) & 1 == b6
        &&& (v >> 7u8) & 1 == b7
    }) by (bit_vector);
    if r == 0 {
        assert((byte >> (r as u8)) & 1 == b0);
    } else if r == 1 {
        assert((byte >> (r as u8)) & 1 == b1);
    } else if r == 2 {
        assert((byte >> (r as u8)) & 1 == b2);
    } else if r == 3 {
        assert((byte >> (r as u8)) & 1 == b3);
    } else if r == 4 {
        assert((byte >> (r as u8)) & 1 == b4);
    } else if r == 5 {
        assert((byte >> (r as u8)) & 1 == b5);
    } else if r == 6 {
        assert((byte >> (r as u8)) & 1 == b6);
    } else {
        assert((byte >> (r as u8)) & 1 == b7);
    }
}

/// The packer's round trip: every pixel of a well-formed matrix survives
/// packing, trailing-zero stripping, and unpacking unchanged, so
/// rebuilding a frame from `output`'s bytes with `new` reproduces it.
pub proof fn lemma_pack_unpack(m: Seq<Seq<u8>>, width: int, height: int)
    requires
        m.len() == height,
        forall|y: int| 0 <= y < height ==> (#[trigger] m[y]).len() == width,
        forall|y: int, x: int|
            0 <= y < height && 0 <= x < m[y].len() ==> (#[trigger] m[y][x]) <= 1,
    ensures
        forall|y: int, x: int|
            0 <= y < height && 0 <= x < width ==> #[trigger] unpacked_pix(
                strip_trailing_zeros(packed_full(m, width, bands_of(height))),
                width,
                y,
                x,
            ) == m[y][x],
{
    let bands = bands_of(height);
    let full = packed_full(m, width, bands);
    let stripped = strip_trailing_zeros(full);
    assert forall|y: int, x: int| 0 <= y < height && 0 <= x < width implies #[trigger] unpacked_pix(
        stripped,
        width,
        y,
        x,
    ) == m[y][x] by {
        let band = y / 8;
        let r = y % 8;
        vstd::arithmetic::div_mod::lemma_fundamental_div_mod(y, 8);
        vstd::arithmetic::div_mod::lemma_mod_bound(y, 8);
        vstd::arithmetic::div_mod::lemma_div_pos_is_pos(y, 8);
        assert(band < bands) by {
            vstd::arithmetic::div_mod::lemma_div_is_ordered(y, height - 1, 8);
            if height % 8 == 0 {
                vstd::arithmetic::div_mod::lemma_fundamental_div_mod(height, 8);
                vstd::arithmetic::div_mod::lemma_fundamental_div_mod_converse(
                    height - 1,
                    8,
                    height / 8 - 1,
                    7,
                );
            } else {
                vstd::arithmetic::div_mod::lemma_div_is_ordered(height - 1, height, 8);
            }
        }
        let i = band * width + x;
        assert(0 <= band * width + x && band * width + x < bands * width) by (nonlinear_arith)
            requires
                0 <= band < bands,
                0 <= x < width,
        ;
        assert(0 <= i && i < bands * width);
        lemma_strip_byte_at(full, i);
        vstd::arithmetic::div_mod::lemma_fundamental_div_mod_converse(i, width, band, x);
        assert(byte_at(full, i) == col_byte(m, band, x));
        assert forall|rr: int| 0 <= rr < 8 implies #[trigger] pix(m, 8 * band + rr, x) <= 1 by {
            if 8 * band + rr < height {
                assert(m[8 * band + rr][x] <= 1);
            }
        }
        lemma_col_byte_bit(m, band, x, r);
        assert(pix(m, 8 * band + r, x) == m[y][x]);
    }
}

/// The matrices of a corpus of frames.
pub open spec fn frame_views(fs: Seq<Frame>) -> Seq<Seq<Seq<u8>>> {
    Seq::new(fs.len(), |i: int| fs[i]@)
}

/// How many of the first `k` matrices have pixel 1 at (y, x).
pub open spec fn ones_upto(ms: Seq<Seq<Seq<u8>>>, k: int, y: int, x: int) -> int
    decreases k,
{
    if k <= 0 {
        0
    } else {
        ones_upto(ms, k - 1, y, x) + if ms[k - 1][y][x] == 1 {
            1int
        } else {
            0int
        }
    }
}

/// How many matrices of the corpus have pixel 1 at (y, x).
pub open spec fn ones_at(ms: Seq<Seq<Seq<u8>>>, y: int, x: int) -> int {
    ones_upto(ms, ms.len() as int, y, x)
}

/// Already-parsed rows form a rectangular binary grid.
pub open spec fn rows_wf(rows: Seq<Vec<u8>>) -> bool {
    &&& forall|y: int| 0 <= y < rows.len() ==> (#[trigger] rows[y])@.len() == rows[0]@.len()
    &&& forall|y: int, x: int|
        0 <= y < rows.len() && 0 <= x < rows[y]@.len() ==> (#[trigger] rows[y]@[x]) <= 1
}

impl Frame {
    /// Well-formed: as many rows as `height`, each row `width` wide, and
    /// every value 0 or 1.
    pub open spec fn wf(&self) -> bool {
        &&& self.rows@.len() == self.height
        &&& forall|y: int|
            0 <= y < self.rows@.len() ==> (#[trigger] self.rows@[y])@.len() == self.width
        &&& forall|y: int, x: int|
            0 <= y < self.rows@.len() && 0 <= x < self.rows@[y]@.len() ==> (#[trigger] self
                .rows@[y]@[x]) <= 1
    }

    /// return the height of the frame
    pub fn height(&self) -> (h: usize)
        ensures
            h == self@.len(),
    {
        self.rows.len()
    }

    /// return the width of the frame
    pub fn width(&self) -> (w: usize)
        requires
            self.wf(),
        ensures
            w == self.width,
            self@.len() > 0 ==> w == self@[0].len(),
    {
        self.width
    }

    /// return the dimensions of the frame in this order: (width, height)
    pub fn dimensions(&self) -> (d: (usize, usize))
        requires
            self.wf(),
        ensures
            d.0 == self.width,
            d.1 == self@.len(),
    {
        (self.width, self.rows.len())
    }

    /// The pixel at (y, x), 0 outside the grid.
    pub fn pixel(&self, y: usize, x: usize) -> (b: u8)
        ensures
            b == pix(self@, y as int, x as int),
    {
        if y < self.rows.len() {
            let row = &self.rows[y];
            if x < row.len() {
                row[x]
            } else {
                0
            }
        } else {
            0
        }
    }

    /// The pixel of row `y0 + r`, column `x`, read as 0 past the bottom
    /// of the matrix.
    fn bit_at(&self, y0: usize, r: usize, x: usize) -> (b: u8)
        requires
            self.wf(),
            r < 8,
        ensures
            b == pix(self@, y0 + r as int, x as int),
            b <= 1,
    {
        let h = self.height;
        if y0 < h && r < h - y0 && x < self.width {
            self.rows[y0 + r][x]
        } else {
            0
        }
    }

    /// Packs the matrix into bytes: for each band of eight rows and each
    /// column one byte, bit `r` holding the pixel of row `band * 8 + r`,
    /// bands in order and columns varying fastest; then strips the
    /// trailing zero bytes, which unpacking reads back as zeros.
    pub fn output(&self) -> (res: Vec<u8>)
        requires
            self.wf(),
        ensures
            res@ == strip_trailing_zeros(
                packed_full(self@, self.width as int, bands_of(self.height as int)),
            ),
    {
        let width = self.width;
        let height = self.height;
        let bands = height / 8 + if height % 8 == 0 {
            0
        } else {
            1
        };
        let ghost full = packed_full(self@, width as int, bands as int);
        let mut res: Vec<u8> = Vec::new();
        let mut band: usize = 0;
        while band < bands
            invariant
                self.wf(),
                width == self.width,
                height == self.height,
                bands == bands_of(height as int),
                full == packed_full(self@, width as int, bands as int),
                band <= bands,
                res@.len() == band * width,
                forall|i: int| 0 <= i < res@.len() ==> (#[trigger] res@[i]) == full[i],
            decreases bands - band,
        {
            proof {
                assert(8 * band < height || width == 0) by {
                    if height % 8 == 0 {
                        assert(height == 8 * (height as int / 8));
                    }
                }
            }
            let y0 = if width > 0 {
                band * 8
            } else {
                0
            };
            let mut x: usize = 0;
            while x < width
                invariant
                    self.wf(),
                    width == self.width,
                    height == self.height,
                    bands == bands_of(height as int),
                    full == packed_full(self@, width as int, bands as int),
                    band < bands,
                    x <= width,
                    width > 0 ==> y0 == band * 8,
                    res@.len() == band * width + x,
                    forall|i: int| 0 <= i < res@.len() ==> (#[trigger] res@[i]) == full[i],
                decreases width - x,
            {
                let b0 = self.bit_at(y0, 0, x);
                let b1 = self.bit_at(y0, 1, x);
                let b2 = self.bit_at(y0, 2, x);
                let b3 = self.bit_at(y0, 3, x);
                let b4 = self.bit_at(y0, 4, x);
                let b5 = self.bit_at(y0, 5, x);
                let b6 = self.bit_at(y0, 6, x);
                let b7 = self.bit_at(y0, 7, x);
                let byte = b0 | (b1 << 1) | (b2 << 2) | (b3 << 3) | (b4 << 4) | (b5 << 5) | (b6
                    << 6) | (b7 << 7);
                proof {
                    assert(byte == col_byte(self@, band as int, x as int));
                    let i: int = band * width + x;
                    assert(band * width + x < bands * width) by (nonlinear_arith)
                        requires
                            0 <= band < bands,
                            0 <= x < width,
                    ;
                    assert(0 <= i < bands * width);
                    vstd::arithmetic::div_mod::lemma_fundamental_div_mod_converse(
                        i as int,
                        width as int,
                        band as int,
                        x as int,
                    );
                    assert(full[i as int] == col_byte(self@, band as int, x as int));
                }
                res.push(byte);
                x += 1;
            }
            proof {
                assert((band + 1) * width == band * width + width) by (nonlinear_arith);
            }
            band += 1;
        }
        proof {
            assert(res@ =~= full);
        }
        while res.len() > 0 && res[res.len() - 1] == 0
            invariant
                strip_trailing_zeros(res@) == strip_trailing_zeros(full),
            decreases res@.len(),
        {
            let ghost before = res@;
            res.pop();
            proof {
                assert(res@ == before.drop_last());
                assert(strip_trailing_zeros(before) == strip_trailing_zeros(res@));
            }
        }
        proof {
            assert(strip_trailing_zeros(res@) == res@);
        }
        res
    }

    /// The frame's packed bytes, run-length compressed.
    pub fn compress(&self) -> (res: Vec<u8>)
        requires
            self.wf(),
        ensures
            res@ == codec::compressed(
                strip_trailing_zeros(
                    packed_full(self@, self.width as int, bands_of(self.height as int)),
                ),
            ),
    {
        let packed = self.output();
        codec::compress(packed.as_slice())
    }

    /// Unpacks packed bytes into a `width` by `height` pixel matrix: bit
    /// `y % 8` of the byte for band `y / 8`, column `x` becomes the pixel
    /// at (y, x), and bytes missing through trailing-zero truncation are
    /// read as 0. Data longer than the matrix can hold is rejected.
    pub fn new(width: usize, height: usize, frame: &[u8]) -> (res: Result<Frame, FrameError>)
        ensures
            match res {
                Ok(f) => {
                    &&& f.wf()
                    &&& f.width == width
                    &&& f.height == height
                    &&& frame@.len() <= bands_of(height as int) * width
                    &&& forall|y: int, x: int|
                        0 <= y < height && 0 <= x < width ==> #[trigger] f@[y][x] == unpacked_pix(
                            frame@,
                            width as int,
                            y,
                            x,
                        )
                },
                Err(e) => {
                    &&& e == FrameError::TooManyBytes
                    &&& frame@.len() > bands_of(height as int) * width
                },
            },
    {
        let flen = frame.len();
        let bands = height / 8 + if height % 8 == 0 {
            0
        } else {
            1
        };
        let fits = match bands.checked_mul(width) {
            Some(cap) => flen <= cap,
            None => true,
        };
        if !fits {
            return Err(FrameError::TooManyBytes);
        }
        let mut rows: Vec<Vec<u8>> = Vec::new();
        let mut y: usize = 0;
        while y < height
            invariant
                y <= height,
                flen == frame@.len(),
                frame@.len() <= bands_of(height as int) * width,
                rows@.len() == y,
                forall|yy: int| 0 <= yy < y ==> (#[trigger] rows@[yy])@.len() == width,
                forall|yy: int, xx: int|
                    0 <= yy < y && 0 <= xx < width ==> (#[trigger] rows@[yy]@[xx]) == unpacked_pix(
                        frame@,
                        width as int,
                        yy,
                        xx,
                    ),
                forall|yy: int, xx: int|
                    0 <= yy < y && 0 <= xx < width ==> (#[trigger] rows@[yy]@[xx]) <= 1,
            decreases height - y,
        {
            let band = y / 8;
            let shift: u8 = (y % 8) as u8;
            let mut row: Vec<u8> = Vec::new();
            let mut x: usize = 0;
            while x < width
                invariant
                    x <= width,
                    flen == frame@.len(),
                    band == y as int / 8,
                    shift == (y as int % 8) as u8,
                    row@.len() == x,
                    forall|xx: int|
                        0 <= xx < x ==> (#[trigger] row@[xx]) == unpacked_pix(
                            frame@,
                            width as int,
                            y as int,
                            xx,
                        ),
                    forall|xx: int| 0 <= xx < x ==> (#[trigger] row@[xx]) <= 1,
                decreases width - x,
            {
                let byte = match band.checked_mul(width) {
                    Some(base) => match base.checked_add(x) {
                        Some(idx) => if idx < flen {
                            frame[idx]
                        } else {
                            0
                        },
                        None => 0,
                    },
                    None => 0,
                };
                proof {
                    assert(byte == byte_at(frame@, (y as int / 8) * width + x));
                }
                let px = (byte >> shift) & 1;
                proof {
                    assert(((byte >> shift) & 1) <= 1) by (bit_vector);
                }
                row.push(px);
                x += 1;
            }
            rows.push(row);
            y += 1;
        }
        let f = Frame { width, height, rows };
        proof {
            assert forall|y2: int, x2: int| 0 <= y2 < height && 0 <= x2 < width implies #[trigger]
                f@[y2][x2] == unpacked_pix(frame@, width as int, y2, x2) by {
                assert(f@[y2] == f.rows@[y2]@);
            }
        }
        Ok(f)
    }

    /// Builds a frame from already-parsed rows of 0/1 pixel values,
    /// rejecting a ragged grid or a value outside 0 and 1, each with the
    /// position of the offence.
    pub fn from_rows(rows: Vec<Vec<u8>>) -> (res: Result<Frame, FrameError>)
        ensures
            res is Ok <==> rows_wf(rows@),
            match res {
                Ok(f) => {
                    &&& f.wf()
                    &&& f@ == Seq::new(rows@.len(), |y: int| rows@[y]@)
                    &&& f.height == rows@.len()
                    &&& f.width == (if rows@.len() > 0 {
                        rows@[0]@.len()
                    } else {
                        0
                    })
                },
                Err(e) => match e {
                    FrameError::RaggedRow { row } => row < rows@.len() && rows@[row as int]@.len()
                        != rows@[0]@.len(),
                    FrameError::BadPixel { row, col } => row < rows@.len() && col < rows@[
                        row as int
                    ]@.len() && rows@[row as int]@[col as int] > 1,
                    _ => false,
                },
            },
    {
        let height = rows.len();
        let width = if height > 0 {
            rows[0].len()
        } else {
            0
        };
        let mut y: usize = 0;
        while y < height
            invariant
                y <= height,
                height == rows@.len(),
                width == (if height > 0 {
                    rows@[0]@.len()
                } else {
                    0
                }),
                forall|yy: int| 0 <= yy < y ==> (#[trigger] rows@[yy])@.len() == width,
                forall|yy: int, xx: int|
                    0 <= yy < y && 0 <= xx < rows@[yy]@.len() ==> (#[trigger] rows@[yy]@[xx]) <= 1,
            decreases height - y,
        {
            let row = &rows[y];
            if row.len() != width {
                return Err(FrameError::RaggedRow { row: y });
            }
            let mut x: usize = 0;
            while x < width
                invariant
                    x <= width,
                    y < height,
                    height == rows@.len(),
                    row@ == rows@[y as int]@,
                    rows@[y as int]@.len() == width,
                    forall|xx: int| 0 <= xx < x ==> (#[trigger] rows@[y as int]@[xx]) <= 1,
                decreases width - x,
            {
                if row[x] > 1 {
                    return Err(FrameError::BadPixel { row: y, col: x });
                }
                x += 1;
            }
            y += 1;
        }
        let f = Frame { width, height, rows };
        proof {
            assert(f@ =~= Seq::new(f.rows@.len(), |yy: int| f.rows@[yy]@));
        }
        Ok(f)
    }

    /// generate an averaged frame from other frames: each pixel is 1
    /// exactly when strictly more than half of the frames have 1 there.
    /// Rejects an empty corpus and frames of differing dimensions.
    pub fn create_from_multiple_frame(frames: &[Frame]) -> (res: Result<Frame, FrameError>)
        requires
            forall|i: int| 0 <= i < frames@.len() ==> (#[trigger] frames@[i]).wf(),
        ensures
            res is Ok <==> frames@.len() > 0 && (forall|i: int|
                0 <= i < frames@.len() ==> (#[trigger] frames@[i]).width == frames@[0].width
                    && frames@[i].height == frames@[0].height),
            match res {
                Ok(f) => {
                    &&& f.wf()
                    &&& f.width == frames@[0].width
                    &&& f.height == frames@[0].height
                    &&& forall|y: int, x: int|
                        0 <= y < f.height && 0 <= x < f.width ==> #[trigger] f@[y][x] == (
                        if ones_at(frame_views(frames@), y, x) > frames@.len() as int / 2 {
                            1u8
                        } else {
                            0u8
                        })
                },
                Err(e) => match e {
                    FrameError::EmptyCorpus => frames@.len() == 0,
                    FrameError::DimensionMismatch => frames@.len() > 0,
                    _ => false,
                },
            },
    {
        let n = frames.len();
        if n == 0 {
            return Err(FrameError::EmptyCorpus);
        }
        let w = frames[0].width;
        let h = frames[0].height;
        let mut i: usize = 1;
        while i < n
            invariant
                1 <= i <= n,
                n == frames@.len(),
                w == frames@[0].width,
                h == frames@[0].height,
                forall|j: int|
                    0 <= j < i ==> (#[trigger] frames@[j]).width == w && frames@[j].height == h,
            decreases n - i,
        {
            let fi = &frames[i];
            if fi.width != w || fi.height != h {
                return Err(FrameError::DimensionMismatch);
            }
            i += 1;
        }
        let ghost ms = frame_views(frames@);
        let mut rows: Vec<Vec<u8>> = Vec::new();
        let mut y: usize = 0;
        while y < h
            invariant
                y <= h,
                n == frames@.len(),
                n > 0,
                w == frames@[0].width,
                h == frames@[0].height,
                ms == frame_views(frames@),
                forall|j: int| 0 <= j < n ==> (#[trigger] frames@[j]).wf(),
                forall|j: int|
                    0 <= j < n ==> (#[trigger] frames@[j]).width == w && frames@[j].height == h,
                rows@.len() == y,
                forall|yy: int| 0 <= yy < y ==> (#[trigger] rows@[yy])@.len() == w,
                forall|yy: int, xx: int|
                    0 <= yy < y && 0 <= xx < w ==> (#[trigger] rows@[yy]@[xx]) == (if ones_at(
                        ms,
                        yy,
                        xx,
                    ) > n as int / 2 {
                        1u8
                    } else {
                        0u8
                    }),
            decreases h - y,
        {
            let mut row: Vec<u8> = Vec::new();
            let mut x: usize = 0;
            while x < w
                invariant
                    x <= w,
                    y < h,
                    n == frames@.len(),
                    n > 0,
                    w == frames@[0].width,
                    h == frames@[0].height,
                    ms == frame_views(frames@),
                    forall|j: int| 0 <= j < n ==> (#[trigger] frames@[j]).wf(),
                    forall|j: int|
                        0 <= j < n ==> (#[trigger] frames@[j]).width == w && frames@[j].height
                            == h,
                    row@.len() == x,
                    forall|xx: int|
                        0 <= xx < x ==> (#[trigger] row@[xx]) == (if ones_at(ms, y as int, xx)
                            > n as int / 2 {
                            1u8
                        } else {
                            0u8
                        }),
                decreases w - x,
            {
                let mut count: usize = 0;
                let mut k: usize = 0;
                while k < n
                    invariant
                        k <= n,
                        n == frames@.len(),
                        y < h,
                        x < w,
                        ms == frame_views(frames@),
                        forall|j: int| 0 <= j < n ==> (#[trigger] frames@[j]).wf(),
                        forall|j: int|
                            0 <= j < n ==> (#[trigger] frames@[j]).width == w && frames@[j].height
                                == h,
                        count <= k,
                        count == ones_upto(ms, k as int, y as int, x as int),
                    decreases n - k,
                {
                    let fk = &frames[k];
                    let pxv = fk.rows[y][x];
                    proof {
                        assert(ms[k as int] == frames@[k as int]@);
                        assert(frames@[k as int]@[y as int] == frames@[k as int].rows@[y as int]@);
                    }
                    if pxv == 1 {
                        count += 1;
                    }
                    k += 1;
                }
                let px = if count > n / 2 {
                    1u8
                } else {
                    0u8
                };
                row.push(px);
                x += 1;
            }
            rows.push(row);
            y += 1;
        }
        let f = Frame { width: w, height: h, rows };
        proof {
            assert forall|y2: int, x2: int| 0 <= y2 < h && 0 <= x2 < w implies #[trigger] f@[y2][x2]
                == (if ones_at(frame_views(frames@), y2, x2) > frames@.len() as int / 2 {
                1u8
            } else {
                0u8
            }) by {
                assert(f@[y2] == f.rows@[y2]@);
            }
        }
        Ok(f)
    }
}

} // verus!
