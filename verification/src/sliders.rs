//! Sliding along a lane of up to eight cells: which cells a slider
//! reaches, and which cells block it.

use vstd::prelude::*;
use crate::bitboard::Bitlane;
use crate::bits::{bit8_at, get_bit8, lemma_bit8_set, lemma_bit_zero};

verus! {

/// Cell `k` lies strictly between cells `a` and `b`.
pub open spec fn strictly_between(a: int, k: int, b: int) -> bool {
    (a < k && k < b) || (b < k && k < a)
}

/// A slider on cell `origin` of a lane reaches cell `d`: `d` is another
/// cell of the lane and no cell strictly between the two is occupied.
pub open spec fn lane_reach(origin: int, occ: Bitlane, d: int) -> bool {
    &&& 0 <= d < 8
    &&& d != origin
    &&& forall|k: int| strictly_between(origin, k, d) ==> !bit8_at(occ, k)
}

/// Cell `d` is the first occupied cell that a slider on `origin` meets in
/// one of the two directions.
pub open spec fn lane_block(origin: int, occ: Bitlane, d: int) -> bool {
    lane_reach(origin, occ, d) && bit8_at(occ, d)
}

/// The cells that a slider on `origin` reaches in a lane with occupancy
/// `occ`: in each direction every cell up to and including the first
/// occupied one.
pub fn slidescan(origin: u8, occ: Bitlane) -> (destins: Bitlane)
    requires
        origin < 8,
    ensures
        forall|d: int| 0 <= d < 8 ==> bit8_at(destins, d) == lane_reach(origin as int, occ, d),
{
    let mut destins: u8 = 0;
    proof {
        assert forall|d: int| !bit8_at(0u8, d) by {
            lemma_bit_zero(d);
        }
    }
    let mut i: u8 = origin;
    let mut blocked: bool = false;
    while i > 0 && !blocked
        invariant
            i <= origin < 8,
            forall|d: int|
                0 <= d < 8 ==> bit8_at(destins, d) == (i <= d < origin && lane_reach(origin as int, occ, d)),
            forall|k: int| i < k < origin ==> !bit8_at(occ, k),
            blocked ==> i < origin && bit8_at(occ, i as int),
            !blocked ==> forall|k: int| i <= k < origin ==> !bit8_at(occ, k),
        decreases i + (if blocked { 0int } else { 1int }),
    {
        i -= 1;
        let before: u8 = destins;
        destins = before | (1u8 << i);
        proof {
            assert forall|d: int| 0 <= d < 8 implies bit8_at(destins, d) == (i <= d < origin && lane_reach(
                origin as int,
                occ,
                d,
            )) by {
                lemma_bit8_set(before, i as int, d);
            }
        }
        if get_bit8(occ, i) {
            blocked = true;
        }
    }
    proof {
        assert forall|d: int| 0 <= d < origin implies bit8_at(destins, d) == lane_reach(origin as int, occ, d) by {
            if d < i {
                assert(strictly_between(origin as int, i as int, d));
            }
        }
    }
    let mut j: u8 = origin;
    let mut stopped: bool = false;
    while j < 7 && !stopped
        invariant
            origin <= j < 8,
            forall|d: int|
                0 <= d < 8 ==> bit8_at(destins, d) == ((d < origin || (origin < d <= j)) && lane_reach(
                    origin as int,
                    occ,
                    d,
                )),
            forall|k: int| origin < k < j ==> !bit8_at(occ, k),
            stopped ==> origin < j && bit8_at(occ, j as int),
            !stopped ==> forall|k: int| origin < k <= j ==> !bit8_at(occ, k),
        decreases (7 - j) + (if stopped { 0int } else { 1int }),
    {
        j += 1;
        let before: u8 = destins;
        destins = before | (1u8 << j);
        proof {
            assert forall|d: int| 0 <= d < 8 implies bit8_at(destins, d) == ((d < origin || (origin < d
                <= j)) && lane_reach(origin as int, occ, d)) by {
                lemma_bit8_set(before, j as int, d);
            }
        }
        if get_bit8(occ, j) {
            stopped = true;
        }
    }
    proof {
        assert forall|d: int| 0 <= d < 8 implies bit8_at(destins, d) == lane_reach(origin as int, occ, d) by {
            if d > j {
                assert(strictly_between(origin as int, j as int, d));
            }
        }
    }
    destins
}

/// The cells that a slider on `origin` reaches: the answer a table of all
/// lanes holds for `(origin, occ)`.
pub fn get_slidescan(origin: u8, occ: Bitlane) -> (destins: Bitlane)
    requires
        origin < 8,
    ensures
        forall|d: int| 0 <= d < 8 ==> bit8_at(destins, d) == lane_reach(origin as int, occ, d),
{
    slidescan(origin, occ)
}

/// The cells that block a slider on `origin`: in each direction the first
/// occupied cell, if there is one. At most two cells.
pub fn slidelimit(origin: u8, occ: Bitlane) -> (limits: Bitlane)
    requires
        origin < 8,
    ensures
        forall|d: int| 0 <= d < 8 ==> bit8_at(limits, d) == lane_block(origin as int, occ, d),
{
    let mut limits: u8 = 0;
    proof {
        assert forall|d: int| !bit8_at(0u8, d) by {
            lemma_bit_zero(d);
        }
    }
    let mut i: u8 = origin;
    let mut blocked: bool = false;
    while i > 0 && !blocked
        invariant
            i <= origin < 8,
            forall|d: int|
                0 <= d < 8 ==> bit8_at(limits, d) == (i <= d < origin && lane_block(origin as int, occ, d)),
            forall|k: int| i < k < origin ==> !bit8_at(occ, k),
            blocked ==> i < origin && bit8_at(occ, i as int),
            !blocked ==> forall|k: int| i <= k < origin ==> !bit8_at(occ, k),
        decreases i + (if blocked { 0int } else { 1int }),
    {
        i -= 1;
        if get_bit8(occ, i) {
            let before: u8 = limits;
            limits = before | (1u8 << i);
            proof {
                assert forall|d: int| 0 <= d < 8 implies bit8_at(limits, d) == (i <= d < origin
                    && lane_block(origin as int, occ, d)) by {
                    lemma_bit8_set(before, i as int, d);
                }
            }
            blocked = true;
        }
    }
    proof {
        assert forall|d: int| 0 <= d < origin implies bit8_at(limits, d) == lane_block(origin as int, occ, d) by {
            if d < i {
                assert(strictly_between(origin as int, i as int, d));
            }
        }
    }
    let mut j: u8 = origin;
    let mut stopped: bool = false;
    while j < 7 && !stopped
        invariant
            origin <= j < 8,
            forall|d: int|
                0 <= d < 8 ==> bit8_at(limits, d) == ((d < origin || (origin < d <= j)) && lane_block(
                    origin as int,
                    occ,
                    d,
                )),
            forall|k: int| origin < k < j ==> !bit8_at(occ, k),
            stopped ==> origin < j && bit8_at(occ, j as int),
            !stopped ==> forall|k: int| origin < k <= j ==> !bit8_at(occ, k),
        decreases (7 - j) + (if stopped { 0int } else { 1int }),
    {
        j += 1;
        if get_bit8(occ, j) {
            let before: u8 = limits;
            limits = before | (1u8 << j);
            proof {
                assert forall|d: int| 0 <= d < 8 implies bit8_at(limits, d) == ((d < origin || (origin < d
                    <= j)) && lane_block(origin as int, occ, d)) by {
                    lemma_bit8_set(before, j as int, d);
                }
            }
            stopped = true;
        }
    }
    proof {
        assert forall|d: int| 0 <= d < 8 implies bit8_at(limits, d) == lane_block(origin as int, occ, d) by {
            if d > j {
                assert(strictly_between(origin as int, j as int, d));
            }
        }
    }
    limits
}

/// The cells that block a slider on `origin`: the answer a table of all
/// lanes holds for `(origin, occ)`.
pub fn get_slidelimit(origin: u8, occ: Bitlane) -> (limits: Bitlane)
    requires
        origin < 8,
    ensures
        forall|d: int| 0 <= d < 8 ==> bit8_at(limits, d) == lane_block(origin as int, occ, d),
{
    slidelimit(origin, occ)
}

} // verus!
