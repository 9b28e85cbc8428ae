//! The section container: palette indirection plus variable-width bit
//! packing over a fixed three-dimensional grid of cells.

use vstd::prelude::*;
use vstd::arithmetic::div_mod::{
    lemma_div_is_ordered, lemma_fundamental_div_mod, lemma_fundamental_div_mod_converse,
};
use crate::Pos;
use crate::codec::{
    mask, word_count, idx_at, write_low, tail_zero, lemma_write_preserves,
    lemma_write_preserves_high_zero, lemma_write_reads_back, lemma_write_span_reads_back,
    lemma_write_same_single, lemma_write_same_span, lemma_extract_bound, lemma_zero_extract,
    lemma_shift_monotonic, lemma_shift_double, lemma_capacity_bound, lemma_span_low_congruence,
    lemma_span_high_congruence, lemma_mask_val, lemma_shr_zero, lemma_write_low_zero_shift,
    lemma_ranges_disjoint, lemma_all_bits_zero, lemma_nonzero_has_set_bit,
    lemma_extract_zero_bit_single, lemma_extract_zero_bit_span_low,
    lemma_extract_zero_bit_span_high, lemma_high_zero_bit, lemma_shift_small, lemma_shift_fits,
};

verus! {

/// The error raised by bounds-checked reads and writes: the position has a
/// coordinate below zero or at or past its dimension.
#[derive(Clone, Copy, Debug, PartialEq, Eq, Structural)]
pub enum BoundsError {
    OutOfBounds(Pos),
}

/// A fixed-size `W x H x D` grid of 64-bit identifiers, stored as
/// `bits_per_item`-wide palette indices packed into 64-bit words.
#[derive(Clone)]
pub struct Section<const W: usize, const H: usize, const D: usize> {
    /// The packed word array, one continuous bit stream of
    /// `bits_per_item`-wide palette indices, one per cell.
    pub data: Vec<u64>,
    /// The append-only palette: index 0 is the reserved default entry.
    pub palette: Vec<u64>,
    /// The current width in bits of one stored palette index.
    pub bits_per_item: u8,
}

/// Builds a vector of `n` zeroed words.
fn zero_vec(n: usize) -> (v: Vec<u64>)
    ensures
        v@.len() == n,
        forall|q: int| 0 <= q < n ==> v@[q] == 0u64,
{
    let mut v: Vec<u64> = Vec::new();
    let mut m: usize = 0;
    while m < n
        invariant
            v@.len() == m,
            m <= n,
            forall|q: int| 0 <= q < m ==> v@[q] == 0u64,
        decreases n - m,
    {
        v.push(0u64);
        m = m + 1;
    }
    v
}

impl<const W: usize, const H: usize, const D: usize> Section<W, H, D> {
    /// The number of addressable cells.
    pub open spec fn spec_volume() -> int {
        W * H * D
    }

    /// The dimensions are positive and small enough that the packed word
    /// array fits in memory even at the widest possible item width.
    pub open spec fn dims_ok() -> bool {
        &&& 1 <= W
        &&& 1 <= H
        &&& 1 <= D
        &&& 64 * Self::spec_volume() + 63 <= usize::MAX
    }

    /// The geometric part of the invariant: a valid item width and a word
    /// array sized exactly for it.
    pub open spec fn geom_ok(self) -> bool {
        &&& Self::dims_ok()
        &&& 1 <= self.bits_per_item <= 63
        &&& self.data@.len() == word_count(self.bits_per_item as int, Self::spec_volume())
        &&& tail_zero(self.data@, self.bits_per_item as u64, Self::spec_volume())
    }

    /// The decoded palette index of cell `i`.
    pub open spec fn spec_index_of(self, i: int) -> u64 {
        idx_at(self.data@, self.bits_per_item as u64, i)
    }

    /// Well-formedness: the geometry holds, the palette starts with the
    /// reserved default entry, fits the current width, and every stored
    /// index points into it, with index 0 the only index that ever maps a
    /// cell to the default identifier.
    pub open spec fn wf(self) -> bool {
        &&& self.geom_ok()
        &&& 1 <= self.palette@.len() <= (1u64 << self.bits_per_item)
        &&& self.palette@[0] == 0
        &&& forall|i: int|
            0 <= i < Self::spec_volume() ==> (#[trigger] self.spec_index_of(i)) < self.palette@.len()
        &&& forall|i: int|
            0 <= i < Self::spec_volume() ==> (#[trigger] self.spec_index_of(i)) == 0
                || self.palette@[self.spec_index_of(i) as int] != 0
    }

    /// The abstract contents: one 64-bit identifier per cell, in flat
    /// (row-major) order.
    pub open spec fn cells(self) -> Seq<u64> {
        Seq::new(Self::spec_volume() as nat, |i: int| self.palette@[self.spec_index_of(i) as int])
    }

    /// Whether a position addresses a cell of this section.
    pub open spec fn spec_in_bounds(p: Pos) -> bool {
        &&& 0 <= p.x < W
        &&& 0 <= p.y < H
        &&& 0 <= p.z < D
    }

    /// The flat cell slot of a position: row-major, `x` outermost.
    pub open spec fn spec_flat(p: Pos) -> int {
        p.x * (H * D) + p.y * D + p.z
    }

    /// Creates a new section with the given initial bits per item.
    ///
    /// The more bits per item the more memory but less likely to repack.
    /// Every cell of the fresh section holds the default identifier `0`.
    pub fn new(bits_per_item: u8) -> (s: Self)
        requires
            Self::dims_ok(),
            1 <= bits_per_item <= 63,
            bits_per_item <= 31 || usize::MAX >= 0xffff_ffff_ffff_ffffu64,
        ensures
            s.wf(),
            s.bits_per_item == bits_per_item,
            s.palette@.len() == (1u64 << bits_per_item),
            bits_per_item <= 59 ==> s.palette@.len() < 0x1000_0000_0000_0000u64,
            forall|m: int| 0 <= m < s.palette@.len() ==> s.palette@[m] == 0u64,
            forall|i: int| 0 <= i < Self::spec_volume() ==> s.cells()[i] == 0u64,
    {
        proof {
            assert(1 * (H * D) <= W * (H * D)) by (nonlinear_arith)
                requires 1 <= W, 0 <= H, 0 <= D,
            ;
            assert(W * (H * D) == W * H * D) by (nonlinear_arith);
            assert(1 * D <= H * D) by (nonlinear_arith)
                requires 1 <= H, 0 <= D,
            ;
            assert((bits_per_item as int) * (W * H * D) <= 64 * (W * H * D)) by (nonlinear_arith)
                requires bits_per_item <= 64, 0 <= W * H * D,
            ;
            if bits_per_item <= 31 {
                lemma_shift_small(bits_per_item as u64);
            }
            if bits_per_item <= 59 {
                lemma_shift_fits(bits_per_item as u64);
            }
        }
        let hd: usize = H * D;
        let volume: usize = W * hd;
        let total_bits: usize = (bits_per_item as usize) * volume;
        let data_len: usize = (total_bits + 63) / 64;
        let palette_len: usize = (1u64 << bits_per_item) as usize;
        let s = Section { data: zero_vec(data_len), palette: zero_vec(palette_len), bits_per_item };
        proof {
            let b = bits_per_item as u64;
            let vol = Self::spec_volume();
            assert(s.data@.len() == word_count(b as int, vol));
            if (b as int * vol) % 64 != 0 {
                let rt = ((b as int * vol) % 64) as u64;
                lemma_zero_extract(rt, 1);
                assert(s.data@[s.data@.len() - 1] == 0u64);
            }
            assert forall|i: int| 0 <= i < vol implies #[trigger] s.spec_index_of(i) == 0u64 by {
                Self::lemma_cell_words_in_range(b, vol, i);
                let off = i * (b as int);
                let r = (off % 64) as u64;
                assert(s.data@[off / 64] == 0u64);
                if r + b > 64 {
                    assert(s.data@[off / 64 + 1] == 0u64);
                }
                lemma_zero_extract(r, b);
            }
            assert(1u64 << bits_per_item >= 2) by (bit_vector)
                requires 1 <= bits_per_item <= 63,
            ;
        }
        s
    }

    /// Splits a flat item slot into the index of the word its bit range
    /// starts in and the bit position inside that word.
    #[inline]
    fn split_index(item_index: usize, bits_per_item: u8) -> (wr: (usize, usize))
        requires
            1 <= bits_per_item <= 63,
            (item_index as int) * (bits_per_item as int) + 63 <= usize::MAX,
        ensures
            wr.0 == (item_index as int) * (bits_per_item as int) / 64,
            wr.1 == (item_index as int) * (bits_per_item as int) % 64,
            wr.1 < 64,
    {
        let bit_offset: usize = item_index * (bits_per_item as usize);
        let word_index: usize = bit_offset / 64;
        let bit_in_word: usize = bit_offset % 64;
        (word_index, bit_in_word)
    }

    /// A cell's bit offset stays within the stream and within `usize`.
    proof fn lemma_off_fits(b: u64, i: int)
        requires
            Self::dims_ok(),
            1 <= b <= 63,
            0 <= i < Self::spec_volume(),
        ensures
            i * (b as int) + (b as int) <= (b as int) * Self::spec_volume(),
            i * (b as int) + 63 <= usize::MAX,
    {
        let vol = Self::spec_volume();
        Self::lemma_cell_words_in_range(b, vol, i);
        assert((b as int) * vol <= 64 * vol) by (nonlinear_arith)
            requires b <= 64, vol >= 0,
        ;
    }

    /// Decodes the palette index stored for the given flat item slot.
    fn palette_index(&self, item_index: usize) -> (k: u64)
        requires
            self.geom_ok(),
            item_index < Self::spec_volume(),
        ensures
            k == self.spec_index_of(item_index as int),
            k < (1u64 << self.bits_per_item),
    {
        let ghost b = self.bits_per_item as u64;
        let ghost vol = Self::spec_volume();
        proof {
            Self::lemma_off_fits(b, item_index as int);
            Self::lemma_cell_words_in_range(b, vol, item_index as int);
        }
        let (word_index, bit_in_word) = Self::split_index(item_index, self.bits_per_item);
        let r64: u64 = bit_in_word as u64;
        let mut item: u64 = self.data[word_index];
        if bit_in_word + (self.bits_per_item as usize) > 64 {
            item = item >> r64;
            let next_word: u64 = self.data[word_index + 1];
            item = item | (next_word << (64 - r64));
        } else {
            item = item >> r64;
        }
        proof {
            lemma_mask_val(b);
        }
        let m: u64 = (1u64 << self.bits_per_item) - 1;
        let k: u64 = item & m;
        proof {
            lemma_extract_bound(item, b);
        }
        k
    }

    /// Encodes `palette_index` at the given flat item slot, preserving
    /// every other bit of the word array exactly.
    fn set_item_ex(&mut self, item_index: usize, palette_index: u64)
        requires
            old(self).geom_ok(),
            item_index < Self::spec_volume(),
            palette_index < (1u64 << old(self).bits_per_item),
        ensures
            final(self).geom_ok(),
            final(self).bits_per_item == old(self).bits_per_item,
            final(self).palette@ == old(self).palette@,
            final(self).data@.len() == old(self).data@.len(),
            final(self).spec_index_of(item_index as int) == palette_index,
            forall|j: int|
                0 <= j < Self::spec_volume() && j != item_index ==> final(self).spec_index_of(j)
                    == old(self).spec_index_of(j),
            old(self).spec_index_of(item_index as int) == palette_index ==> final(self).data@
                == old(self).data@,
    {
        let ghost b = self.bits_per_item as u64;
        let ghost vol = Self::spec_volume();
        let ghost d1 = self.data@;
        let ghost i = item_index as int;
        let ghost offi = i * (b as int);
        let ghost wi = offi / 64;
        let ghost ri = (offi % 64) as u64;
        proof {
            Self::lemma_off_fits(b, i);
            Self::lemma_cell_words_in_range(b, vol, i);
        }
        let (word_index, bit_in_word) = Self::split_index(item_index, self.bits_per_item);
        let r64: u64 = bit_in_word as u64;
        let bits_in_first: usize = 64 - bit_in_word;
        if (self.bits_per_item as usize) <= bits_in_first {
            proof {
                lemma_mask_val(b);
            }
            let m: u64 = (1u64 << self.bits_per_item) - 1;
            let w0: u64 = self.data[word_index];
            let neww: u64 = (w0 & !(m << r64)) | ((palette_index & m) << r64);
            self.data.set(word_index, neww);
            proof {
                assert(neww == write_low(w0, palette_index, ri, b));
                Self::lemma_write_post(d1, self.data@, b, vol, i, palette_index);
            }
        } else {
            let bits_in_second: usize = (self.bits_per_item as usize) - bits_in_first;
            let l1: u64 = bits_in_first as u64;
            let l2: u64 = bits_in_second as u64;
            proof {
                lemma_mask_val(l1);
                lemma_mask_val(l2);
            }
            let m1: u64 = (1u64 << l1) - 1;
            let w0: u64 = self.data[word_index];
            let x2: u64 = (w0 & !(m1 << r64)) | ((palette_index & m1) << r64);
            self.data.set(word_index, x2);
            let m2: u64 = (1u64 << l2) - 1;
            let w1: u64 = self.data[word_index + 1];
            let y2: u64 = (w1 & !m2) | ((palette_index >> l1) & m2);
            self.data.set(word_index + 1, y2);
            proof {
                assert(x2 == write_low(w0, palette_index, ri, l1));
                lemma_write_low_zero_shift(w1, palette_index >> l1, l2);
                assert(y2 == write_low(w1, palette_index >> l1, 0, l2));
                Self::lemma_write_post(d1, self.data@, b, vol, i, palette_index);
            }
        }
    }

    /// Whether `item` occurs anywhere in the palette.
    pub open spec fn palette_has(s: Self, item: u64) -> bool {
        exists|m: int| 0 <= m < s.palette@.len() && s.palette@[m] == item
    }

    /// What one completed write of `item` at `pos` does to the container:
    /// the written cell now holds `item`, every other cell is untouched,
    /// the palette grows only when `item` was absent, the width grows only
    /// when the palette was at capacity, the stored index is the first
    /// palette slot equal to `item`, and re-writing a value already stored
    /// leaves the word array bit-identical.
    pub open spec fn set_post(pre: Self, post: Self, pos: Pos, item: u64) -> bool {
        let i = Self::spec_flat(pos);
        let k = post.spec_index_of(i);
        &&& post.wf()
        &&& Self::spec_in_bounds(pos)
        &&& (if Self::palette_has(pre, item) {
            post.palette@ == pre.palette@ && post.bits_per_item == pre.bits_per_item
        } else {
            post.palette@ == pre.palette@.push(item) && post.bits_per_item as int == (
            if pre.palette@.len() == (1u64 << pre.bits_per_item) {
                pre.bits_per_item + 1
            } else {
                pre.bits_per_item as int
            })
        })
        &&& k < post.palette@.len()
        &&& post.palette@[k as int] == item
        &&& forall|m: int| 0 <= m < k ==> post.palette@[m] != item
        &&& post.cells() == pre.cells().update(i, item)
        &&& forall|j: int|
            0 <= j < Self::spec_volume() && j != i ==> post.spec_index_of(j) == pre.spec_index_of(
                j,
            )
        &&& (pre.spec_index_of(i) == k && pre.bits_per_item == post.bits_per_item
            ==> post.data@ == pre.data@)
    }

    /// Computes the volume, the fixed number of addressable cells.
    fn volume_exec() -> (v: usize)
        requires
            Self::dims_ok(),
        ensures
            v == Self::spec_volume(),
            v >= 1,
    {
        proof {
            assert(W * H * D >= 1 && H * D >= 1 && W * H <= W * H * D && (W * H) * D == W * H
                * D) by (nonlinear_arith)
                requires 1 <= W, 1 <= H, 1 <= D,
            ;
        }
        (W * H) * D
    }

    /// Rebuilds a section from its three raw fields, as a structural
    /// decode hands them back, accepting exactly the well-formed states —
    /// the states the container itself can reach.
    pub fn try_from_parts(data: Vec<u64>, palette: Vec<u64>, bits_per_item: u8) -> (r: Option<
        Self,
    >)
        requires
            Self::dims_ok(),
        ensures
            match r {
                Some(s) => s == (Section::<W, H, D> { data, palette, bits_per_item }) && s.wf(),
                None => !(Section::<W, H, D> { data, palette, bits_per_item }).wf(),
            },
    {
        let s = Section::<W, H, D> { data, palette, bits_per_item };
        if bits_per_item < 1 || bits_per_item > 63 {
            return None;
        }
        let volume: usize = Self::volume_exec();
        proof {
            assert((bits_per_item as int) * (W * H * D) <= 64 * (W * H * D) && 1 * (W * H * D)
                <= (bits_per_item as int) * (W * H * D)) by (nonlinear_arith)
                requires 1 <= bits_per_item <= 64, 1 <= W * H * D,
            ;
        }
        let total_bits: usize = (bits_per_item as usize) * volume;
        let expected_len: usize = (total_bits + 63) / 64;
        if s.data.len() != expected_len {
            return None;
        }
        let rt: usize = total_bits % 64;
        if rt != 0 {
            if s.data[expected_len - 1] >> (rt as u64) != 0 {
                return None;
            }
        }
        let plen: usize = s.palette.len();
        if plen == 0 {
            return None;
        }
        if (plen as u64) > (1u64 << bits_per_item) {
            return None;
        }
        if s.palette[0] != 0 {
            return None;
        }
        let mut i: usize = 0;
        while i < volume
            invariant
                s == (Section::<W, H, D> { data, palette, bits_per_item }),
                s.geom_ok(),
                s.bits_per_item == bits_per_item,
                volume == Self::spec_volume(),
                plen == s.palette@.len(),
                i <= volume,
                forall|q: int|
                    0 <= q < i ==> (#[trigger] s.spec_index_of(q)) < s.palette@.len() && (
                    s.spec_index_of(q) == 0 || s.palette@[s.spec_index_of(q) as int] != 0),
            decreases volume - i,
        {
            let k: u64 = s.palette_index(i);
            if k >= plen as u64 {
                return None;
            }
            if k != 0 && s.palette[k as usize] == 0 {
                return None;
            }
            i = i + 1;
        }
        Some(s)
    }

    /// Returns the total number of items in the section.
    #[inline]
    pub fn volume(&self) -> (v: usize)
        requires
            Self::dims_ok(),
        ensures
            v == Self::spec_volume(),
    {
        Self::volume_exec()
    }

    /// Returns the dimensions (width, height, depth) of the section.
    #[inline]
    pub fn dimensions(&self) -> (p: Pos)
        requires
            W <= i32::MAX,
            H <= i32::MAX,
            D <= i32::MAX,
        ensures
            p.x == W && p.y == H && p.z == D,
    {
        Pos { x: W as i32, y: H as i32, z: D as i32 }
    }

    /// Succeeds exactly when every coordinate of the position lies inside
    /// the section, and otherwise reports the offending position.
    fn check_position_in_bounds(pos: Pos) -> (r: Result<(), BoundsError>)
        ensures
            r is Ok <==> Self::spec_in_bounds(pos),
            !Self::spec_in_bounds(pos) ==> r == Result::<(), BoundsError>::Err(
                BoundsError::OutOfBounds(pos),
            ),
    {
        if pos.x < 0 || (pos.x as usize) >= W || pos.y < 0 || (pos.y as usize) >= H || pos.z < 0
            || (pos.z as usize) >= D {
            Err(BoundsError::OutOfBounds(pos))
        } else {
            Ok(())
        }
    }

    /// The flat slot of an in-bounds position: row-major, `x` outermost,
    /// `z` innermost.
    #[inline]
    fn item_index(pos: Pos) -> (idx: usize)
        requires
            Self::dims_ok(),
            Self::spec_in_bounds(pos),
        ensures
            idx == Self::spec_flat(pos),
            idx < Self::spec_volume(),
    {
        proof {
            assert((pos.x as int) * (H * D) + (pos.y as int) * D + (pos.z as int) < W * H * D
                && (pos.x as int) * (H * D) >= 0 && (pos.y as int) * D >= 0 && H * D <= W * H
                * D) by (nonlinear_arith)
                requires
                    0 <= (pos.x as int) && (pos.x as int) < W,
                    0 <= (pos.y as int) && (pos.y as int) < H,
                    0 <= (pos.z as int) && (pos.z as int) < D,
            ;
        }
        let hd: usize = H * D;
        (pos.x as usize) * hd + (pos.y as usize) * D + (pos.z as usize)
    }

    /// Finds the first palette slot holding `item`, if any.
    fn find_palette(&self, item: u64) -> (r: Option<usize>)
        ensures
            match r {
                Some(k) => k < self.palette@.len() && self.palette@[k as int] == item && forall|
                    m: int,
                |
                    0 <= m < k ==> self.palette@[m] != item,
                None => forall|m: int| 0 <= m < self.palette@.len() ==> self.palette@[m] != item,
            },
    {
        let n: usize = self.palette.len();
        let mut m: usize = 0;
        while m < n
            invariant
                n == self.palette@.len(),
                m <= n,
                forall|q: int| 0 <= q < m ==> self.palette@[q] != item,
            decreases n - m,
        {
            if self.palette[m] == item {
                return Some(m);
            }
            m = m + 1;
        }
        None
    }

    /// Re-encodes every stored palette index at a wider bit width into a
    /// freshly sized, zero-filled word array; the palette is untouched.
    fn repack(&mut self, new_bits_per_item: u8)
        requires
            old(self).geom_ok(),
            old(self).bits_per_item <= new_bits_per_item <= 63,
        ensures
            final(self).geom_ok(),
            final(self).bits_per_item == new_bits_per_item,
            final(self).palette@ == old(self).palette@,
            forall|j: int|
                0 <= j < Self::spec_volume() ==> final(self).spec_index_of(j) == old(
                    self,
                ).spec_index_of(j),
    {
        let ghost vol = Self::spec_volume();
        let ghost ob = self.bits_per_item as u64;
        let nb: u64 = new_bits_per_item as u64;
        let volume: usize = Self::volume_exec();
        let mut all_palette_indices: Vec<u64> = Vec::new();
        let mut m: usize = 0;
        while m < volume
            invariant
                self == old(self),
                self.geom_ok(),
                volume == Self::spec_volume(),
                ob == self.bits_per_item as u64,
                m <= volume,
                all_palette_indices@.len() == m,
                forall|q: int|
                    0 <= q < m ==> all_palette_indices@[q] == old(self).spec_index_of(q)
                        && all_palette_indices@[q] < (1u64 << ob),
            decreases volume - m,
        {
            let k = self.palette_index(m);
            all_palette_indices.push(k);
            m = m + 1;
        }
        self.bits_per_item = new_bits_per_item;
        proof {
            assert((nb as int) * vol <= 64 * vol && (nb as int) * vol >= 1 * vol) by (
            nonlinear_arith)
                requires 1 <= nb <= 64, vol >= 1,
            ;
        }
        let total_bits: usize = (new_bits_per_item as usize) * volume;
        let data_len: usize = (total_bits + 63) / 64;
        self.data = zero_vec(data_len);
        proof {
            if (nb as int * vol) % 64 != 0 {
                let rt = ((nb as int * vol) % 64) as u64;
                lemma_zero_extract(rt, 1);
            }
            lemma_shift_monotonic(ob, nb);
        }
        let mut m2: usize = 0;
        while m2 < volume
            invariant
                self.geom_ok(),
                self.bits_per_item == new_bits_per_item,
                self.palette@ == old(self).palette@,
                nb == new_bits_per_item as u64,
                volume == Self::spec_volume(),
                1 <= nb <= 63,
                m2 <= volume,
                all_palette_indices@.len() == volume,
                forall|q: int|
                    0 <= q < volume ==> all_palette_indices@[q] == old(self).spec_index_of(q)
                        && all_palette_indices@[q] < (1u64 << nb),
                forall|q: int| 0 <= q < m2 ==> self.spec_index_of(q) == all_palette_indices@[q],
            decreases volume - m2,
        {
            self.set_item_ex(m2, all_palette_indices[m2]);
            m2 = m2 + 1;
        }
        proof {
            assert forall|j: int|
                0 <= j < Self::spec_volume() implies self.spec_index_of(j) == old(
                self,
            ).spec_index_of(j) by {
                assert(all_palette_indices@[j] == old(self).spec_index_of(j));
                assert(self.spec_index_of(j) == all_palette_indices@[j]);
            }
        }
    }

    /// Sets an item at the given three dimensional position, which the
    /// caller has already checked to be in bounds.
    ///
    /// The palette must have room left to grow: a palette of `2^60`
    /// 64-bit entries could never have been allocated, so the bound costs
    /// callers nothing and keeps the item width below 64 bits.
    pub fn set_item_unchecked(&mut self, pos: Pos, item: u64)
        requires
            old(self).wf(),
            Self::spec_in_bounds(pos),
            old(self).palette@.len() < 0x1000_0000_0000_0000u64,
        ensures
            final(self).wf(),
            Self::set_post(*old(self), *final(self), pos, item),
    {
        let ghost pre = *old(self);
        let ghost vol = Self::spec_volume();
        let k: u64 = match self.find_palette(item) {
            Some(k0) => k0 as u64,
            None => {
                let new_index: usize = self.palette.len();
                self.palette.push(item);
                if (1u64 << self.bits_per_item) <= new_index as u64 {
                    proof {
                        lemma_capacity_bound(self.bits_per_item as u64);
                        lemma_shift_double(self.bits_per_item as u64);
                    }
                    let wider: u8 = self.bits_per_item + 1;
                    self.repack(wider);
                }
                new_index as u64
            },
        };
        proof {
            assert(k < (1u64 << self.bits_per_item));
        }
        let idx: usize = Self::item_index(pos);
        self.set_item_ex(idx, k);
        proof {
            let post = *self;
            let i = idx as int;
            assert forall|j: int|
                0 <= j < vol && j != i implies post.spec_index_of(j) == pre.spec_index_of(j) by {}
            assert forall|j: int|
                0 <= j < vol implies #[trigger] post.spec_index_of(j) < post.palette@.len() && (
                post.spec_index_of(j) == 0 || post.palette@[post.spec_index_of(j) as int]
                    != 0) by {
                if j != i {
                    assert(post.spec_index_of(j) == pre.spec_index_of(j));
                    assert(pre.spec_index_of(j) < pre.palette@.len());
                }
            }
            assert(post.cells() =~= pre.cells().update(i, item));
        }
    }

    /// Sets an item at the given three dimensional position.
    /// Returns an error if the position is out of the section bounds and
    /// leaves the container unmodified in that case.
    ///
    /// The palette must have room left to grow: a palette of `2^60`
    /// 64-bit entries could never have been allocated, so the bound costs
    /// callers nothing and keeps the item width below 64 bits.
    #[must_use]
    pub fn set_item(&mut self, pos: Pos, item: u64) -> (r: Result<(), BoundsError>)
        requires
            old(self).wf(),
            old(self).palette@.len() < 0x1000_0000_0000_0000u64,
        ensures
            final(self).wf(),
            r is Ok <==> Self::spec_in_bounds(pos),
            Self::spec_in_bounds(pos) ==> Self::set_post(*old(self), *final(self), pos, item),
            !Self::spec_in_bounds(pos) ==> r == Result::<(), BoundsError>::Err(
                BoundsError::OutOfBounds(pos),
            ) && *final(self) == *old(self),
    {
        match Self::check_position_in_bounds(pos) {
            Ok(_) => {
                self.set_item_unchecked(pos, item);
                Ok(())
            },
            Err(e) => Err(e),
        }
    }

    /// Gets the item at the given three dimensional position, which the
    /// caller has already checked to be in bounds.
    #[inline]
    pub fn item_unchecked(&self, pos: Pos) -> (r: u64)
        requires
            self.wf(),
            Self::spec_in_bounds(pos),
        ensures
            r == self.cells()[Self::spec_flat(pos)],
    {
        let idx: usize = Self::item_index(pos);
        let k: u64 = self.palette_index(idx);
        let n: usize = self.palette.len();
        proof {
            assert(self.spec_index_of(idx as int) < self.palette@.len());
            assert(self.cells()[idx as int] == self.palette@[self.spec_index_of(idx as int) as int]);
        }
        self.palette[k as usize]
    }

    /// Gets the item at the given three dimensional position.
    /// Returns an error if the position is out of the section bounds.
    #[inline]
    pub fn item(&self, pos: Pos) -> (r: Result<u64, BoundsError>)
        requires
            self.wf(),
        ensures
            Self::spec_in_bounds(pos) ==> r == Result::<u64, BoundsError>::Ok(
                self.cells()[Self::spec_flat(pos)],
            ),
            !Self::spec_in_bounds(pos) ==> r == Result::<u64, BoundsError>::Err(
                BoundsError::OutOfBounds(pos),
            ),
    {
        match Self::check_position_in_bounds(pos) {
            Ok(_) => Ok(self.item_unchecked(pos)),
            Err(e) => Err(e),
        }
    }

    /// Returns if there is only one item type and it has a value of zero:
    /// true exactly when every cell holds the default identifier.
    pub fn is_empty(&self) -> (r: bool)
        requires
            self.wf(),
        ensures
            r <==> (forall|i: int| 0 <= i < Self::spec_volume() ==> self.cells()[i] == 0u64),
    {
        let ghost vol = Self::spec_volume();
        let n: usize = self.data.len();
        let mut w: usize = 0;
        while w < n
            invariant
                self.wf(),
                n == self.data@.len(),
                w <= n,
                forall|q: int| 0 <= q < w ==> self.data@[q] == 0u64,
            decreases n - w,
        {
            if self.data[w] != 0 {
                proof {
                    Self::lemma_nonzero_word_cell(*self, w as int);
                    let i = choose|i: int|
                        0 <= i < Self::spec_volume() && self.spec_index_of(i) != 0u64;
                    assert(self.cells()[i] == self.palette@[self.spec_index_of(i) as int]);
                    assert(self.cells()[i] != 0u64);
                }
                return false;
            }
            w = w + 1;
        }
        proof {
            let b = self.bits_per_item as u64;
            assert forall|i: int| 0 <= i < vol implies self.cells()[i] == 0u64 by {
                Self::lemma_cell_words_in_range(b, vol, i);
                let off = i * (b as int);
                let r = (off % 64) as u64;
                assert(self.data@[off / 64] == 0u64);
                if r + b > 64 {
                    assert(self.data@[off / 64 + 1] == 0u64);
                }
                lemma_zero_extract(r, b);
                assert(self.spec_index_of(i) == 0u64);
            }
        }
        true
    }

    /// Locates the cell and in-cell offset that hold a given bit of the
    /// packed stream, with the word and bit position the cell's range
    /// starts at.
    proof fn lemma_bit_position(b: u64, vol: int, p: int) -> (cell: (int, int))
        requires
            1 <= b <= 63,
            vol >= 1,
            0 <= p < (b as int) * vol,
        ensures
            ({
                let i = cell.0;
                let si = cell.1;
                let off = i * (b as int);
                let wi = off / 64;
                let ri = off % 64;
                &&& 0 <= i < vol
                &&& 0 <= si < b
                &&& p == off + si
                &&& (ri + si < 64 ==> p / 64 == wi && p % 64 == ri + si)
                &&& (ri + si >= 64 ==> ri + b > 64 && p / 64 == wi + 1 && p % 64 == ri + si - 64)
            }),
    {
        let i = p / (b as int);
        let si = p % (b as int);
        lemma_fundamental_div_mod(p, b as int);
        assert(i * (b as int) == (b as int) * i) by (nonlinear_arith);
        vstd::arithmetic::div_mod::lemma_multiply_divide_lt(p, b as int, vol);
        vstd::arithmetic::div_mod::lemma_div_pos_is_pos(p, b as int);
        vstd::arithmetic::div_mod::lemma_mod_pos_bound(p, b as int);
        let off = i * (b as int);
        let wi = off / 64;
        let ri = off % 64;
        if ri + si < 64 {
            lemma_fundamental_div_mod_converse(p, 64, wi, ri + si);
        } else {
            lemma_fundamental_div_mod_converse(p, 64, wi + 1, ri + si - 64);
        }
        (i, si)
    }

    /// When every cell stores palette index zero, every word of the
    /// packed array is zero: each bit of each word lies either in some
    /// cell's range or in the all-zero tail.
    proof fn lemma_blank_words(s: Self)
        requires
            s.geom_ok(),
            forall|i: int| 0 <= i < Self::spec_volume() ==> s.spec_index_of(i) == 0u64,
        ensures
            forall|w: int| 0 <= w < s.data@.len() ==> s.data@[w] == 0u64,
    {
        let b = s.bits_per_item as u64;
        let vol = Self::spec_volume();
        let n = (b as int) * vol;
        assert(vol >= 1) by (nonlinear_arith)
            requires 1 <= W, 1 <= H, 1 <= D, vol == W * H * D,
        ;
        assert(n >= 1) by (nonlinear_arith)
            requires b >= 1, vol >= 1, n == (b as int) * vol,
        ;
        assert forall|w: int| 0 <= w < s.data@.len() implies s.data@[w] == 0u64 by {
            let x = s.data@[w];
            assert forall|t: u64| t < 64 implies (x >> t) & 1u64 == 0u64 by {
                let p = 64 * w + (t as int);
                lemma_fundamental_div_mod_converse(p, 64, w, t as int);
                if p < n {
                    let cell = Self::lemma_bit_position(b, vol, p);
                    let i = cell.0;
                    let si = cell.1;
                    Self::lemma_cell_words_in_range(b, vol, i);
                    let off = i * (b as int);
                    let wi = off / 64;
                    let ri = (off % 64) as u64;
                    assert(s.spec_index_of(i) == 0u64);
                    if ri + b <= 64 {
                        lemma_extract_zero_bit_single(s.data@[wi], ri, b, si as u64);
                        assert(w == wi && t == ri + si);
                    } else if (ri as int) + si < 64 {
                        lemma_extract_zero_bit_span_low(
                            s.data@[wi],
                            s.data@[wi + 1],
                            ri,
                            b,
                            si as u64,
                        );
                        assert(w == wi && t == ri + si);
                    } else {
                        lemma_extract_zero_bit_span_high(
                            s.data@[wi],
                            s.data@[wi + 1],
                            ri,
                            b,
                            si as u64,
                        );
                        assert(w == wi + 1 && t == (ri as int) + si - 64);
                    }
                } else {
                    assert(n % 64 != 0);
                    let rt = (n % 64) as u64;
                    assert(w == s.data@.len() - 1 && rt <= t);
                    lemma_high_zero_bit(x, rt, t);
                }
            }
            lemma_all_bits_zero(x);
        }
    }

    /// A nonzero word of the packed array means some cell stores a
    /// nonzero palette index.
    proof fn lemma_nonzero_word_cell(s: Self, w: int)
        requires
            s.geom_ok(),
            0 <= w < s.data@.len(),
            s.data@[w] != 0,
        ensures
            exists|i: int| 0 <= i < Self::spec_volume() && s.spec_index_of(i) != 0u64,
    {
        let b = s.bits_per_item as u64;
        let vol = Self::spec_volume();
        let n = (b as int) * vol;
        assert(vol >= 1) by (nonlinear_arith)
            requires 1 <= W, 1 <= H, 1 <= D, vol == W * H * D,
        ;
        assert(n >= 1) by (nonlinear_arith)
            requires b >= 1, vol >= 1, n == (b as int) * vol,
        ;
        lemma_nonzero_has_set_bit(s.data@[w]);
        let t = choose|t: u64| t < 64 && (s.data@[w] >> t) & 1u64 == 1u64;
        let p = 64 * w + (t as int);
        lemma_fundamental_div_mod_converse(p, 64, w, t as int);
        if p < n {
            let cell = Self::lemma_bit_position(b, vol, p);
            let i = cell.0;
            let si = cell.1;
            Self::lemma_cell_words_in_range(b, vol, i);
            let off = i * (b as int);
            let wi = off / 64;
            let ri = (off % 64) as u64;
            if s.spec_index_of(i) == 0u64 {
                if ri + b <= 64 {
                    lemma_extract_zero_bit_single(s.data@[wi], ri, b, si as u64);
                    assert(w == wi && t == ri + si);
                } else if (ri as int) + si < 64 {
                    lemma_extract_zero_bit_span_low(
                        s.data@[wi],
                        s.data@[wi + 1],
                        ri,
                        b,
                        si as u64,
                    );
                    assert(w == wi && t == ri + si);
                } else {
                    lemma_extract_zero_bit_span_high(
                        s.data@[wi],
                        s.data@[wi + 1],
                        ri,
                        b,
                        si as u64,
                    );
                    assert(w == wi + 1 && t == (ri as int) + si - 64);
                }
                assert(false);
            }
            assert(0 <= i < vol && s.spec_index_of(i) != 0u64);
        } else {
            assert(n % 64 != 0);
            let rt = (n % 64) as u64;
            assert(w == s.data@.len() - 1 && rt <= t);
            lemma_high_zero_bit(s.data@[w], rt, t);
            assert(false);
        }
    }

    /// An in-bounds position's flat slot lies inside the volume.
    pub proof fn lemma_flat_bounds(pos: Pos)
        requires
            Self::dims_ok(),
            Self::spec_in_bounds(pos),
        ensures
            0 <= Self::spec_flat(pos) < Self::spec_volume(),
    {
        assert((pos.x as int) * (H * D) + (pos.y as int) * D + (pos.z as int) < W * H * D && (
        pos.x as int) * (H * D) >= 0 && (pos.y as int) * D >= 0) by (nonlinear_arith)
            requires
                0 <= (pos.x as int) && (pos.x as int) < W,
                0 <= (pos.y as int) && (pos.y as int) < H,
                0 <= (pos.z as int) && (pos.z as int) < D,
        ;
    }

    /// Row-major flattening is injective: two distinct in-bounds
    /// positions address distinct cells.
    pub proof fn lemma_flat_injective(p: Pos, q: Pos)
        requires
            Self::dims_ok(),
            Self::spec_in_bounds(p),
            Self::spec_in_bounds(q),
            Self::spec_flat(p) == Self::spec_flat(q),
        ensures
            p == q,
    {
        let fp = Self::spec_flat(p);
        assert(((p.x as int) * H + (p.y as int)) * D == (p.x as int) * (H * D) + (p.y as int)
            * D) by (nonlinear_arith);
        assert(((q.x as int) * H + (q.y as int)) * D == (q.x as int) * (H * D) + (q.y as int)
            * D) by (nonlinear_arith);
        lemma_fundamental_div_mod_converse(
            fp,
            D as int,
            (p.x as int) * H + (p.y as int),
            p.z as int,
        );
        lemma_fundamental_div_mod_converse(
            fp,
            D as int,
            (q.x as int) * H + (q.y as int),
            q.z as int,
        );
        lemma_fundamental_div_mod_converse(
            (p.x as int) * H + (p.y as int),
            H as int,
            p.x as int,
            p.y as int,
        );
        lemma_fundamental_div_mod_converse(
            (q.x as int) * H + (q.y as int),
            H as int,
            q.x as int,
            q.y as int,
        );
    }

    /// Round-trip law: after a completed write of `item` at `pos`,
    /// reading the cell at `pos` yields `item` back, through any repack
    /// the write may have triggered.
    pub proof fn lemma_set_then_get(pre: Self, post: Self, pos: Pos, item: u64)
        requires
            Self::set_post(pre, post, pos, item),
        ensures
            post.cells()[Self::spec_flat(pos)] == item,
    {
        Self::lemma_flat_bounds(pos);
    }

    /// Non-interference law: a completed write at `pos` leaves the value
    /// of every other in-bounds position unchanged.
    pub proof fn lemma_set_preserves_others(pre: Self, post: Self, pos: Pos, q: Pos, item: u64)
        requires
            Self::set_post(pre, post, pos, item),
            Self::spec_in_bounds(q),
            q != pos,
        ensures
            post.cells()[Self::spec_flat(q)] == pre.cells()[Self::spec_flat(q)],
    {
        Self::lemma_flat_bounds(pos);
        Self::lemma_flat_bounds(q);
        if Self::spec_flat(pos) == Self::spec_flat(q) {
            Self::lemma_flat_injective(pos, q);
        }
    }

    /// Persistence law: a value written earlier is still read back after a
    /// later write to a different position, through any repacks the later
    /// write triggered.
    pub proof fn lemma_later_write_keeps_earlier(
        s0: Self,
        s1: Self,
        s2: Self,
        p1: Pos,
        v1: u64,
        p2: Pos,
        v2: u64,
    )
        requires
            Self::set_post(s0, s1, p1, v1),
            Self::set_post(s1, s2, p2, v2),
            p1 != p2,
        ensures
            s2.cells()[Self::spec_flat(p1)] == v1,
    {
        Self::lemma_set_then_get(s0, s1, p1, v1);
        Self::lemma_set_preserves_others(s1, s2, p2, p1, v2);
    }

    /// Idempotence law: writing the same value to the same position twice
    /// in a row produces the same stored state as writing it once.
    pub proof fn lemma_set_idempotent(s0: Self, s1: Self, s2: Self, pos: Pos, item: u64)
        requires
            Self::set_post(s0, s1, pos, item),
            Self::set_post(s1, s2, pos, item),
        ensures
            s2.data@ == s1.data@,
            s2.palette@ == s1.palette@,
            s2.bits_per_item == s1.bits_per_item,
    {
        Self::lemma_flat_bounds(pos);
        let i = Self::spec_flat(pos);
        let k1 = s1.spec_index_of(i);
        let k2 = s2.spec_index_of(i);
        assert(Self::palette_has(s1, item));
        assert(s2.palette@ == s1.palette@);
        if k1 < k2 {
            assert(s2.palette@[k1 as int] != item);
            assert(false);
        }
        if k2 < k1 {
            assert(s1.palette@[k2 as int] != item);
            assert(false);
        }
    }

    /// Writing a nonzero identifier leaves the section non-empty.
    pub proof fn lemma_nonzero_write_not_empty(pre: Self, post: Self, pos: Pos, item: u64)
        requires
            Self::set_post(pre, post, pos, item),
            item != 0,
        ensures
            exists|i: int| 0 <= i < Self::spec_volume() && post.cells()[i] != 0u64,
    {
        Self::lemma_flat_bounds(pos);
        assert(post.cells()[Self::spec_flat(pos)] == item);
    }

    /// What one item write does to the packed stream: the target item now
    /// reads back as the written index, every other item reads back
    /// unchanged, the tail bits stay zero, and a write of the value
    /// already stored leaves the words untouched.
    proof fn lemma_write_post(d1: Seq<u64>, d2: Seq<u64>, b: u64, vol: int, i: int, k: u64)
        requires
            1 <= b <= 63,
            d1.len() == word_count(b as int, vol),
            tail_zero(d1, b, vol),
            0 <= i < vol,
            k < (1u64 << b),
            ({
                let offi = i * (b as int);
                let wi = offi / 64;
                let ri = (offi % 64) as u64;
                if ri + b <= 64 {
                    d2 == d1.update(wi, write_low(d1[wi], k, ri, b))
                } else {
                    d2 == d1.update(wi, write_low(d1[wi], k, ri, (64 - ri) as u64)).update(
                        wi + 1,
                        write_low(d1[wi + 1], k >> ((64 - ri) as u64), 0, (ri + b - 64) as u64),
                    )
                }
            }),
        ensures
            d2.len() == d1.len(),
            tail_zero(d2, b, vol),
            idx_at(d2, b, i) == k,
            forall|j: int| 0 <= j < vol && j != i ==> idx_at(d2, b, j) == idx_at(d1, b, j),
            idx_at(d1, b, i) == k ==> d2 == d1,
    {
        let offi = i * (b as int);
        let wi = offi / 64;
        let ri = (offi % 64) as u64;
        let l1 = (64 - ri) as u64;
        let l2 = (ri + b - 64) as u64;
        let n = (b as int) * vol;
        Self::lemma_cell_words_in_range(b, vol, i);
        assert(offi == 64 * wi + ri);
        // the target item reads back as written
        if ri + b <= 64 {
            lemma_write_reads_back(d1[wi], k, ri, b);
        } else {
            lemma_write_span_reads_back(d1[wi], d1[wi + 1], k, ri, b);
        }
        // every other item reads back unchanged
        assert forall|j: int| 0 <= j < vol && j != i implies idx_at(d2, b, j) == idx_at(
            d1,
            b,
            j,
        ) by {
            Self::lemma_cell_words_in_range(b, vol, j);
            lemma_ranges_disjoint(b, i, j);
            let offj = j * (b as int);
            let wj = offj / 64;
            let rj = (offj % 64) as u64;
            assert(offj == 64 * wj + rj);
            if ri + b <= 64 {
                // one word written
                if rj + b <= 64 {
                    if wj == wi {
                        lemma_write_preserves(d1[wi], k, ri, b, rj, b);
                    }
                } else {
                    if wj == wi {
                        assert(ri + b <= rj);
                        lemma_write_preserves(d1[wi], k, ri, b, rj, (64 - rj) as u64);
                        lemma_span_low_congruence(d2[wj], d1[wj], d1[wj + 1], rj, b);
                    } else if wj + 1 == wi {
                        assert(rj + b - 64 <= ri);
                        lemma_write_preserves(d1[wi], k, ri, b, 0, (rj + b - 64) as u64);
                        lemma_shr_zero(d2[wj + 1]);
                        lemma_shr_zero(d1[wj + 1]);
                        lemma_span_high_congruence(d1[wj], d2[wj + 1], d1[wj + 1], rj, b);
                    }
                }
            } else {
                // two words written
                if rj + b <= 64 {
                    if wj == wi {
                        assert(rj + b <= ri);
                        lemma_write_preserves(d1[wi], k, ri, l1, rj, b);
                    } else if wj == wi + 1 {
                        assert(l2 <= rj);
                        lemma_write_preserves(d1[wi + 1], k >> l1, 0, l2, rj, b);
                    }
                } else {
                    if wj == wi {
                        assert(false);
                    } else if wj + 1 == wi {
                        assert(rj + b - 64 <= ri);
                        lemma_write_preserves(d1[wi], k, ri, l1, 0, (rj + b - 64) as u64);
                        lemma_shr_zero(d2[wj + 1]);
                        lemma_shr_zero(d1[wj + 1]);
                        lemma_span_high_congruence(d1[wj], d2[wj + 1], d1[wj + 1], rj, b);
                    } else if wj == wi + 1 {
                        assert(l2 <= rj);
                        lemma_write_preserves(d1[wi + 1], k >> l1, 0, l2, rj, (64 - rj) as u64);
                        lemma_span_low_congruence(d2[wj], d1[wj], d1[wj + 1], rj, b);
                    }
                }
            }
        }
        // the tail bits stay zero
        if n % 64 != 0 {
            let lw = d1.len() - 1;
            let rt = (n % 64) as u64;
            assert(lw == n / 64);
            assert(n == 64 * lw + rt);
            if ri + b <= 64 {
                if wi == lw {
                    assert(ri + b <= rt);
                    lemma_write_preserves_high_zero(d1[wi], k, ri, b, rt);
                }
            } else {
                if wi + 1 == lw {
                    assert(l2 <= rt);
                    lemma_write_preserves_high_zero(d1[wi + 1], k >> l1, 0, l2, rt);
                }
            }
        }
        // writing what is already stored changes nothing
        if idx_at(d1, b, i) == k {
            if ri + b <= 64 {
                lemma_write_same_single(d1[wi], k, ri, b);
                assert(d2 =~= d1);
            } else {
                lemma_write_same_span(d1[wi], d1[wi + 1], k, ri, b);
                assert(d2 =~= d1);
            }
        }
    }

    /// The word indices a cell's bit range touches lie inside the word
    /// array sized by `word_count`.
    proof fn lemma_cell_words_in_range(b: u64, vol: int, i: int)
        requires
            1 <= b <= 63,
            0 <= i < vol,
        ensures
            ({
                let off = i * (b as int);
                let r = off % 64;
                &&& 0 <= off
                &&& off + b <= (b as int) * vol
                &&& 0 <= off / 64
                &&& 0 <= r < 64
                &&& (r + b <= 64 ==> off / 64 < word_count(b as int, vol))
                &&& (r + b > 64 ==> off / 64 + 1 < word_count(b as int, vol))
            }),
    {
        let off = i * (b as int);
        let n = (b as int) * vol;
        assert(off >= 0) by (nonlinear_arith)
            requires i >= 0, b >= 1, off == i * (b as int),
        ;
        assert(off + b <= n) by (nonlinear_arith)
            requires 0 <= i < vol, b >= 1, off == i * (b as int), n == (b as int) * vol,
        ;
        let w = off / 64;
        let r = off % 64;
        assert(n >= 1) by (nonlinear_arith)
            requires vol >= 1, b >= 1, n == (b as int) * vol,
        ;
        assert(word_count(b as int, vol) == (n + 63) / 64);
        // word_count(b, vol) == (n - 1) / 64 + 1
        assert((n + 63) / 64 == (n - 1) / 64 + 1);
        if r + b <= 64 {
            lemma_div_is_ordered(off, n - 1, 64);
            assert(w <= (n - 1) / 64);
        } else {
            // the cell's last bit lies in word w + 1
            assert(off == 64 * w + r);
            assert(64 * (w + 1) <= n - 1);
            lemma_div_is_ordered(64 * (w + 1), n - 1, 64);
            assert(64 * (w + 1) / 64 == w + 1);
            assert(w + 1 <= (n - 1) / 64);
        }
    }
}

} // verus!
