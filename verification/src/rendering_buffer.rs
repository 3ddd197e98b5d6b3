//! A rendering buffer of RGBA32 rows: `height` rows of `width * 4` bytes.

use vstd::prelude::*;
use vstd::arithmetic::mul::{lemma_mul_inequality, lemma_mul_is_distributive_add_other_way};

verus! {

/// Bytes per RGBA32 pixel.
pub const BPP: usize = 4;

/// An owned RGBA32 pixel buffer addressed row by row.
pub struct RowAccessor {
    buf: Vec<u8>,
    width: u32,
    height: u32,
}

impl View for RowAccessor {
    type V = Seq<Seq<u8>>;

    /// The buffer as its rows, each `width * 4` bytes long.
    closed spec fn view(&self) -> Seq<Seq<u8>> {
        let row_len = self.width * 4;
        Seq::new(self.height as nat, |y: int| self.buf@.subrange(y * row_len, y * row_len + row_len))
    }
}

impl RowAccessor {
    /// Width in pixels.
    pub closed spec fn w(&self) -> nat {
        self.width as nat
    }

    /// Height in rows.
    pub closed spec fn h(&self) -> nat {
        self.height as nat
    }

    /// Total number of bytes held.
    pub closed spec fn byte_len(&self) -> nat {
        self.buf@.len()
    }

    /// The buffer holds exactly `width * height` pixels and a row's byte
    /// length fits a `usize`.
    pub open spec fn wf(&self) -> bool {
        &&& self.byte_len() == self.w() * self.h() * 4
        &&& self.w() * 4 <= usize::MAX
        &&& self.byte_len() <= usize::MAX
        &&& self.w() <= u32::MAX
        &&& self.h() <= u32::MAX
    }

    /// The rows of a well-formed buffer: `height` of them, `width * 4` bytes each.
    pub proof fn lemma_rows(&self)
        requires
            self.wf(),
        ensures
            self@.len() == self.h(),
            forall|y: int| 0 <= y < self.h() ==> #[trigger] self@[y].len() == self.w() * 4,
    {
        let rl = self.width * 4;
        assert forall|y: int| 0 <= y < self.h() implies #[trigger] self@[y].len() == self.w() * 4 by {
            lemma_mul_inequality(y + 1, self.height as int, rl as int);
            lemma_mul_is_distributive_add_other_way(rl as int, y, 1);
            assert((self.width * 4) * self.height == self.width * self.height * 4) by (nonlinear_arith);
        }
    }

    /// Wraps `buf` as a `width` x `height` RGBA32 buffer; `None` when its
    /// length is not `width * height * 4` or a row's length overflows `usize`.
    pub fn attach(buf: Vec<u8>, width: u32, height: u32) -> (r: Option<RowAccessor>)
        ensures
            r is Some <==> (buf@.len() == width * height * 4 && width * 4 <= usize::MAX),
            r matches Some(ra) ==> {
                &&& ra.wf()
                &&& ra.w() == width
                &&& ra.h() == height
                &&& ra@ == Seq::new(height as nat, |y: int| buf@.subrange(y * (width * 4), y * (width * 4) + width * 4))
            },
    {
        let row_len = (width as u64).checked_mul(4);
        // u32 * 4 always fits u64
        let row_len = row_len.unwrap();
        proof {
            assert(row_len * height == width * height * 4) by (nonlinear_arith)
                requires row_len == width * 4;
            assert(row_len * height <= 0x4_0000_0000 * 0x1_0000_0000) by (nonlinear_arith)
                requires row_len <= 0x4_0000_0000, height <= 0x1_0000_0000;
        }
        if row_len > usize::MAX as u64 {
            return None;
        }
        let total = (row_len as u128) * (height as u128);
        if total != buf.len() as u128 {
            return None;
        }
        Some(RowAccessor { buf, width, height })
    }

    /// Width in pixels.
    pub fn width(&self) -> (w: u32)
        ensures
            w == self.w(),
    {
        self.width
    }

    /// Height in rows.
    pub fn height(&self) -> (h: u32)
        ensures
            h == self.h(),
    {
        self.height
    }

    proof fn lemma_index(&self, y: int, off: int)
        requires
            self.wf(),
            0 <= y < self.h(),
            0 <= off < self.w() * 4,
        ensures
            0 <= y * (self.w() * 4),
            y * (self.w() * 4) + off < self.byte_len(),
            y * (self.w() * 4) + self.w() * 4 <= self.byte_len(),
            self.buf@[y * (self.w() * 4) + off] == self@[y][off],
    {
        let rl = self.w() * 4;
        lemma_mul_inequality(y + 1, self.height as int, rl as int);
        lemma_mul_is_distributive_add_other_way(rl as int, y, 1);
        assert(rl * self.height == self.w() * self.h() * 4) by (nonlinear_arith)
            requires rl == self.w() * 4;
        assert(0 <= y * rl) by (nonlinear_arith) requires 0 <= y, 0 <= rl;
        self.lemma_rows();
    }

    /// The byte at offset `off` of row `y`.
    pub fn get(&self, y: u32, off: usize) -> (v: u8)
        requires
            self.wf(),
            y < self.h(),
            off < self.w() * 4,
        ensures
            v == self@[y as int][off as int],
    {
        proof { self.lemma_index(y as int, off as int); }
        let idx = y as usize * (self.width as usize * 4) + off;
        self.buf[idx]
    }

    /// Overwrites the byte at offset `off` of row `y` with `v`.
    pub fn set(&mut self, y: u32, off: usize, v: u8)
        requires
            old(self).wf(),
            y < old(self).h(),
            off < old(self).w() * 4,
        ensures
            final(self).wf(),
            final(self).w() == old(self).w(),
            final(self).h() == old(self).h(),
            final(self)@ == old(self)@.update(y as int, old(self)@[y as int].update(off as int, v)),
    {
        proof { old(self).lemma_index(y as int, off as int); }
        let idx = y as usize * (self.width as usize * 4) + off;
        self.buf.set(idx, v);
        proof {
            let rl = self.w() * 4;
            let target = old(self)@.update(y as int, old(self)@[y as int].update(off as int, v));
            old(self).lemma_rows();
            assert forall|yy: int| 0 <= yy < self.h() implies #[trigger] self@[yy] =~= target[yy] by {
                if yy < y {
                    lemma_mul_inequality(yy + 1, y as int, rl as int);
                    lemma_mul_is_distributive_add_other_way(rl as int, yy, 1);
                } else if yy > y {
                    lemma_mul_inequality(y as int + 1, yy, rl as int);
                    lemma_mul_is_distributive_add_other_way(rl as int, y as int, 1);
                }
                old(self).lemma_index(yy, 0);
                let base = yy * rl;
                assert forall|j: int| 0 <= j < rl implies #[trigger] self@[yy][j] == target[yy][j] by {
                    assert(self@[yy][j] == self.buf@[base + j]);
                    if yy == y {
                        assert(target[yy][j] == old(self)@[yy].update(off as int, v)[j]);
                    } else {
                        assert(target[yy][j] == old(self)@[yy][j]);
                        assert(old(self)@[yy][j] == old(self).buf@[base + j]);
                    }
                }
            }
            assert(self@ =~= target);
        }
    }

    /// Gives back the underlying bytes, row after row.
    pub fn into_vec(self) -> (v: Vec<u8>)
        requires
            self.wf(),
        ensures
            v@.len() == self.w() * self.h() * 4,
            forall|y: int, off: int|
                0 <= y < self.h() && 0 <= off < self.w() * 4 ==> #[trigger] v@[y * (self.w() * 4) + off] == self@[y][off],
    {
        proof {
            assert forall|y: int, off: int|
                0 <= y < self.h() && 0 <= off < self.w() * 4 implies #[trigger] self.buf@[y * (self.w() * 4) + off] == self@[y][off] by {
                self.lemma_index(y, off);
            }
        }
        self.buf
    }
}

} // verus!
