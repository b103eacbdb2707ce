//! Bitboards: sets of tiles held as 64-bit words. A `Bitboard` is tagged
//! with the traversal that numbers its bits; an `MDBitboard` keeps one set
//! of tiles under all four traversals at once.

use vstd::prelude::*;
use std::marker::PhantomData;
use vstd::std_specs::bits::{axiom_u64_trailing_zeros, u64_trailing_zeros};
use crate::bits::{bit8_at, bit_at, bit_mask, get_bit, scan_bits, set_bits};
use crate::bits::{lemma_bit_clear, lemma_bit_logic, lemma_bit_set, lemma_bit_zero};
use crate::bits::{lemma_bits_ext, lemma_set_bits, lemma_zero_iff_no_bits};
use crate::coordinates::{AntidiagonalMajorCS, Coordinate, CoordinateSystem, FileMajorCS};
use crate::coordinates::{ProdiagonalMajorCS, RankMajorCS};
use crate::coordinates::{decode_in, encode_in, lemma_encode_bijective};
use crate::grid::StandardCoordinate;

verus! {

/// Eight neighbouring bits of a bitboard: the cells of a lane.
pub type Bitlane = u8;

/// A bitboard without the tag of its traversal.
pub type RawBitboard = u64;

/// Exactly one bit of `x` is set.
pub open spec fn is_single(x: u64) -> bool {
    exists|i: int| 0 <= i < 64 && bit_at(x, i) && forall|j: int| 0 <= j < 64 && j != i ==> !bit_at(x, j)
}

/// The eight bits of `x` that start at bit `begin`, as a byte. Bits past
/// the end of the word read as clear.
pub proof fn lemma_bit_lane(x: u64, begin: int, k: int)
    requires
        0 <= begin < 64,
        0 <= k < 8,
    ensures
        bit8_at((x >> (begin as u64)) as u8, k) == bit_at(x, begin + k),
{
    let b = begin as u64;
    let c = k as u8;
    let d = k as u64;
    if begin + k < 64 {
        let e = (begin + k) as u64;
        assert(b < 64 && c < 8 && d == c as u64 && e == b + d && e < 64 ==> ((((x >> b) as u8) >> c)
            & 1 == 1) == ((x >> e) & 1 == 1)) by (bit_vector);
    } else {
        assert(b < 64 && c < 8 && (b + (c as u64)) >= 64 ==> (((x >> b) as u8) >> c) & 1 == 0)
            by (bit_vector);
    }
}

/// A byte trimmed to its low `len` bits and moved up to start at bit
/// `begin` of a word.
pub proof fn lemma_bit_from_lane(lane: u8, len: int, begin: int, j: int)
    requires
        0 <= len <= 8,
        0 <= begin,
        begin + len <= 64,
        begin < 64,
        0 <= j < 64,
    ensures
        bit_at((((((lane << ((8 - len) as u8)) as u8) >> ((8 - len) as u8)) as u8) as u64) << (begin as u64), j)
            == (begin <= j < begin + len && bit8_at(lane, j - begin)),
{
    let off = (8 - len) as u8;
    let b = begin as u64;
    let a = j as u64;
    let l = len as u64;
    if begin <= j && j < begin + 8 {
        let k = (j - begin) as u8;
        assert(off <= 8 && l == 8 - (off as u64) && b < 64 && a < 64 && b <= a && a < b + 8 && k
            as u64 == a - b ==> ((((((((lane << off) as u8) >> off) as u8) as u64) << b) >> a) & 1
            == 1) == (a < b + l && (lane >> k) & 1 == 1)) by (bit_vector);
    } else {
        assert(off <= 8 && b < 64 && a < 64 && (a < b || a >= b + 8) ==> (((((((lane << off) as u8)
            >> off) as u8) as u64) << b) >> a) & 1 == 0) by (bit_vector);
    }
}

/// A set of tiles as a 64-bit word whose bits are numbered by traversal
/// `C`.
pub struct Bitboard<C: CoordinateSystem> {
    pub raw_bb: RawBitboard,
    pub pd: PhantomData<C>,
}

impl<C: CoordinateSystem> Clone for Bitboard<C> {
    fn clone(&self) -> (r: Self)
        ensures
            r == *self,
    {
        *self
    }
}

impl<C: CoordinateSystem> Copy for Bitboard<C> {

}

impl<C: CoordinateSystem> Bitboard<C> {
    /// Tile `s` is in the set.
    pub open spec fn has(self, s: int) -> bool {
        bit_at(self.raw_bb, encode_in(C::spec_slot(), s))
    }

    /// The intersection with `rhs`.
    pub fn bitand(self, rhs: Self) -> (r: Self)
        ensures
            r.raw_bb == self.raw_bb & rhs.raw_bb,
            forall|j: int| bit_at(r.raw_bb, j) == (bit_at(self.raw_bb, j) && bit_at(rhs.raw_bb, j)),
    {
        proof {
            assert forall|j: int| bit_at(self.raw_bb & rhs.raw_bb, j) == (bit_at(self.raw_bb, j) && bit_at(
                rhs.raw_bb,
                j,
            )) by {
                lemma_bit_logic(self.raw_bb, rhs.raw_bb, j);
            }
        }
        Self::from_raw(self.raw_bb & rhs.raw_bb)
    }

    /// The union with `rhs`.
    pub fn bitor(self, rhs: Self) -> (r: Self)
        ensures
            r.raw_bb == self.raw_bb | rhs.raw_bb,
            forall|j: int| bit_at(r.raw_bb, j) == (bit_at(self.raw_bb, j) || bit_at(rhs.raw_bb, j)),
    {
        proof {
            assert forall|j: int| bit_at(self.raw_bb | rhs.raw_bb, j) == (bit_at(self.raw_bb, j) || bit_at(
                rhs.raw_bb,
                j,
            )) by {
                lemma_bit_logic(self.raw_bb, rhs.raw_bb, j);
            }
        }
        Self::from_raw(self.raw_bb | rhs.raw_bb)
    }

    /// The complement.
    pub fn not(self) -> (r: Self)
        ensures
            r.raw_bb == !self.raw_bb,
            forall|j: int| 0 <= j < 64 ==> bit_at(r.raw_bb, j) == !bit_at(self.raw_bb, j),
    {
        proof {
            assert forall|j: int| 0 <= j < 64 implies bit_at(!self.raw_bb, j) == !bit_at(self.raw_bb, j) by {
                lemma_bit_logic(self.raw_bb, self.raw_bb, j);
            }
        }
        Self::from_raw(!self.raw_bb)
    }

    /// The coordinates in the set, lowest first.
    pub fn scan(self) -> (found: Vec<Coordinate<C>>)
        ensures
            found@.len() == set_bits(self.raw_bb).len(),
            forall|k: int| 0 <= k < found@.len() ==> (#[trigger] found@[k]).index == set_bits(self.raw_bb)[k] && found@[k].wf(),
    {
        let bits: Vec<u8> = scan_bits(self.raw_bb);
        let mut found: Vec<Coordinate<C>> = Vec::new();
        let mut k: usize = 0;
        proof {
            lemma_set_bits(self.raw_bb);
        }
        while k < bits.len()
            invariant
                k <= bits.len(),
                found@.len() == k,
                forall|l: int| 0 <= l < bits@.len() ==> bits@[l] < 64,
                forall|l: int| 0 <= l < k ==> (#[trigger] found@[l]).index == bits@[l] && found@[l].wf(),
            decreases bits.len() - k,
        {
            found.push(Coordinate::<C>::from_index(bits[k]));
            k += 1;
        }
        found
    }

    /// The one coordinate in the set.
    pub fn single(self) -> (c: Coordinate<C>)
        requires
            is_single(self.raw_bb),
        ensures
            c.wf(),
            bit_at(self.raw_bb, c.index as int),
            forall|j: int| 0 <= j < 64 && j != c.index ==> !bit_at(self.raw_bb, j),
    {
        proof {
            axiom_u64_trailing_zeros(self.raw_bb);
            lemma_zero_iff_no_bits(self.raw_bb);
            let i = choose|i: int|
                0 <= i < 64 && bit_at(self.raw_bb, i) && forall|j: int|
                    0 <= j < 64 && j != i ==> !bit_at(self.raw_bb, j);
            let t = u64_trailing_zeros(self.raw_bb) as int;
            assert(bit_at(self.raw_bb, t));
            assert(t == i);
        }
        let index: u8 = self.raw_bb.trailing_zeros() as u8;
        Coordinate::from_index(index)
    }

    pub fn includes(self, coord: Coordinate<C>) -> (b: bool)
        requires
            coord.wf(),
        ensures
            b == bit_at(self.raw_bb, coord.index as int),
    {
        get_bit(self.raw_bb, coord.index())
    }

    pub fn is_not_empty(self) -> (b: bool)
        ensures
            b == (self.raw_bb != 0),
            b == exists|j: int| 0 <= j < 64 && bit_at(self.raw_bb, j),
    {
        proof {
            lemma_zero_iff_no_bits(self.raw_bb);
        }
        self.raw_bb != 0
    }

    /// The eight bits that start at `begin`, as a lane.
    pub fn copy_bitlane(self, begin: Coordinate<C>) -> (lane: Bitlane)
        requires
            begin.wf(),
        ensures
            lane == (self.raw_bb >> (begin.index as u64)) as u8,
            forall|k: int| 0 <= k < 8 ==> bit8_at(lane, k) == bit_at(self.raw_bb, begin.index + k),
    {
        let lane: u8 = (self.raw_bb >> (begin.index() as u64)) as u8;
        proof {
            assert forall|k: int| 0 <= k < 8 implies bit8_at(lane, k) == bit_at(
                self.raw_bb,
                begin.index + k,
            ) by {
                lemma_bit_lane(self.raw_bb, begin.index as int, k);
            }
        }
        lane
    }

    pub fn raw(self) -> (x: RawBitboard)
        ensures
            x == self.raw_bb,
    {
        self.raw_bb
    }

    /// The number of tiles in the set.
    pub fn count(self) -> (n: u8)
        ensures
            n == set_bits(self.raw_bb).len(),
            n <= 64,
    {
        proof {
            lemma_set_bits(self.raw_bb);
        }
        scan_bits(self.raw_bb).len() as u8
    }

    pub fn invert(&mut self)
        ensures
            final(self).raw_bb == !old(self).raw_bb,
    {
        self.raw_bb = !self.raw_bb;
    }

    pub fn set(&mut self, pos: Coordinate<C>)
        requires
            pos.wf(),
        ensures
            final(self).raw_bb == old(self).raw_bb | bit_mask(pos.index as int),
            forall|j: int| bit_at(final(self).raw_bb, j) == (j == pos.index || bit_at(old(self).raw_bb, j)),
    {
        let before: u64 = self.raw_bb;
        let after: u64 = before | (1u64 << (pos.index() as u64));
        proof {
            assert(after == before | bit_mask(pos.index as int));
            assert forall|j: int| bit_at(after, j) == (j == pos.index || bit_at(before, j)) by {
                lemma_bit_set(before, pos.index as int, j);
            }
        }
        self.raw_bb = after;
    }

    pub fn unset(&mut self, pos: Coordinate<C>)
        requires
            pos.wf(),
        ensures
            final(self).raw_bb == old(self).raw_bb & !bit_mask(pos.index as int),
            forall|j: int| bit_at(final(self).raw_bb, j) == (j != pos.index && bit_at(old(self).raw_bb, j)),
    {
        let before: u64 = self.raw_bb;
        let after: u64 = before & !(1u64 << (pos.index() as u64));
        proof {
            assert(after == before & !bit_mask(pos.index as int));
            assert forall|j: int| bit_at(after, j) == (j != pos.index && bit_at(before, j)) by {
                lemma_bit_clear(before, pos.index as int, j);
            }
        }
        self.raw_bb = after;
    }

    /// A bitboard whose only tiles are those of the low `len` bits of
    /// `bitlane`, laid down from `begin` upwards.
    pub fn from_bitlane(begin: Coordinate<C>, bitlane: Bitlane, len: u8) -> (r: Self)
        requires
            begin.wf(),
            len <= 8,
            begin.index + len <= 64,
        ensures
            forall|j: int| 0 <= j < 64 ==> bit_at(r.raw_bb, j) == (begin.index <= j < begin.index + len && bit8_at(bitlane, j - begin.index)),
    {
        let mask_offset: u8 = 8 - len;
        let trimmed: u8 = if mask_offset == 8 {
            0
        } else {
            (bitlane << mask_offset) >> mask_offset
        };
        let raw_bb: u64 = (trimmed as u64) << (begin.index() as u64);
        proof {
            let ghost t2 = (((bitlane << mask_offset) as u8) >> mask_offset) as u8;
            assert(mask_offset == 8 ==> (((bitlane << mask_offset) as u8) >> mask_offset) as u8 == 0)
                by (bit_vector);
            assert forall|j: int| 0 <= j < 64 implies bit_at(raw_bb, j) == (begin.index <= j
                < begin.index + len && bit8_at(bitlane, j - begin.index)) by {
                lemma_bit_from_lane(bitlane, len as int, begin.index as int, j);
            }
        }
        Self::from_raw(raw_bb)
    }

    pub fn empty() -> (r: Self)
        ensures
            r.raw_bb == 0,
    {
        Self::from_raw(0)
    }

    /// Tags a raw word with the traversal.
    pub fn from_raw(raw_bb: RawBitboard) -> (r: Self)
        ensures
            r.raw_bb == raw_bb,
    {
        Self { raw_bb, pd: PhantomData }
    }
}

/// One set of tiles, stored once under each of the four traversals.
#[derive(Clone, Copy, PartialEq, Eq, Debug)]
pub struct MDBitboard {
    pub array: [RawBitboard; 4],
}

impl MDBitboard {
    /// Tile `s` is in the set.
    pub open spec fn has(&self, s: int) -> bool {
        bit_at(self.array[0], s)
    }

    /// The four words hold the same tiles.
    pub open spec fn wf(&self) -> bool {
        forall|slot: int, s: int|
            0 <= slot < 4 && 0 <= s < 64 ==> bit_at(self.array[slot], #[trigger] encode_in(slot, s))
                == self.has(s)
    }

    pub fn empty() -> (r: Self)
        ensures
            r.wf(),
            forall|s: int| !r.has(s),
            forall|slot: int| 0 <= slot < 4 ==> r.array[slot] == 0,
    {
        let r = MDBitboard { array: [0u64; 4] };
        proof {
            assert forall|slot: int, j: int| 0 <= slot < 4 implies !bit_at(r.array[slot], j) by {
                lemma_bit_zero(j);
            }
        }
        r
    }

    /// The set under traversal `C`.
    pub fn get<C: CoordinateSystem>(&self) -> (bb: Bitboard<C>)
        ensures
            bb.raw_bb == self.array[C::spec_slot()],
            self.wf() ==> forall|s: int| 0 <= s < 64 ==> bb.has(s) == self.has(s),
    {
        proof {
            C::lemma_slot();
        }
        Bitboard::<C>::from_raw(self.array[C::slot()])
    }

    pub fn set(&mut self, pos: StandardCoordinate)
        requires
            pos.wf(),
            old(self).wf(),
        ensures
            final(self).wf(),
            forall|s: int| 0 <= s < 64 ==> final(self).has(s) == (s == pos.index || old(self).has(s)),
            final(self).array[0] == old(self).array[0] | bit_mask(pos.index as int),
    {
        let ghost before = *self;
        let c0: u8 = RankMajorCS::encode(pos);
        let c1: u8 = FileMajorCS::encode(pos);
        let c2: u8 = ProdiagonalMajorCS::encode(pos);
        let c3: u8 = AntidiagonalMajorCS::encode(pos);
        let w0: u64 = self.array[0] | (1u64 << (c0 as u64));
        let w1: u64 = self.array[1] | (1u64 << (c1 as u64));
        let w2: u64 = self.array[2] | (1u64 << (c2 as u64));
        let w3: u64 = self.array[3] | (1u64 << (c3 as u64));
        self.array = [w0, w1, w2, w3];
        proof {
            assert forall|slot: int| 0 <= slot < 4 implies self.array[slot] == before.array[slot]
                | bit_mask(encode_in(slot, pos.index as int)) by {
            }
            assert forall|slot: int, s: int| 0 <= slot < 4 && 0 <= s < 64 implies bit_at(
                self.array[slot],
                #[trigger] encode_in(slot, s),
            ) == (s == pos.index || before.has(s)) by {
                lemma_encode_bijective(slot);
                lemma_bit_set(before.array[slot], encode_in(slot, pos.index as int), encode_in(slot, s));
                assert(bit_at(before.array[slot], encode_in(slot, s)) == before.has(s));
            }
            assert forall|s: int| 0 <= s < 64 implies self.has(s) == (s == pos.index || before.has(s)) by {
                assert(encode_in(0, s) == s);
            }
        }
    }

    pub fn unset(&mut self, pos: StandardCoordinate)
        requires
            pos.wf(),
            old(self).wf(),
        ensures
            final(self).wf(),
            forall|s: int| 0 <= s < 64 ==> final(self).has(s) == (s != pos.index && old(self).has(s)),
            final(self).array[0] == old(self).array[0] & !bit_mask(pos.index as int),
    {
        let ghost before = *self;
        let c0: u8 = RankMajorCS::encode(pos);
        let c1: u8 = FileMajorCS::encode(pos);
        let c2: u8 = ProdiagonalMajorCS::encode(pos);
        let c3: u8 = AntidiagonalMajorCS::encode(pos);
        let w0: u64 = self.array[0] & !(1u64 << (c0 as u64));
        let w1: u64 = self.array[1] & !(1u64 << (c1 as u64));
        let w2: u64 = self.array[2] & !(1u64 << (c2 as u64));
        let w3: u64 = self.array[3] & !(1u64 << (c3 as u64));
        self.array = [w0, w1, w2, w3];
        proof {
            assert forall|slot: int| 0 <= slot < 4 implies self.array[slot] == before.array[slot]
                & !bit_mask(encode_in(slot, pos.index as int)) by {
            }
            assert forall|slot: int, s: int| 0 <= slot < 4 && 0 <= s < 64 implies bit_at(
                self.array[slot],
                #[trigger] encode_in(slot, s),
            ) == (s != pos.index && before.has(s)) by {
                lemma_encode_bijective(slot);
                lemma_bit_clear(before.array[slot], encode_in(slot, pos.index as int), encode_in(slot, s));
                assert(bit_at(before.array[slot], encode_in(slot, s)) == before.has(s));
            }
            assert forall|s: int| 0 <= s < 64 implies self.has(s) == (s != pos.index && before.has(s)) by {
                assert(encode_in(0, s) == s);
            }
        }
    }
}

/// Two well-formed multi-directional bitboards with the same tiles are the
/// same four words.
pub proof fn lemma_md_ext(a: MDBitboard, b: MDBitboard)
    requires
        a.wf(),
        b.wf(),
        forall|s: int| 0 <= s < 64 ==> a.has(s) == b.has(s),
    ensures
        a == b,
{
    assert forall|slot: int| 0 <= slot < 4 implies a.array[slot] == b.array[slot] by {
        lemma_encode_bijective(slot);
        assert forall|i: int| 0 <= i < 64 implies bit_at(a.array[slot], i) == bit_at(b.array[slot], i) by {
            let s = decode_in(slot, i);
            assert(encode_in(slot, s) == i);
            assert(bit_at(a.array[slot], encode_in(slot, s)) == a.has(s));
            assert(bit_at(b.array[slot], encode_in(slot, s)) == b.has(s));
        }
        lemma_bits_ext(a.array[slot], b.array[slot]);
    }
    assert(a.array =~= b.array);
}

} // verus!
