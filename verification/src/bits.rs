//! Bit-level vocabulary shared by every bitboard: what it means for a bit to
//! be set, how the machine operations move bits around, and a scanner that
//! walks the set bits from the least significant upwards.

use vstd::prelude::*;
use vstd::std_specs::bits::{axiom_u64_trailing_zeros, axiom_u8_trailing_zeros};
use vstd::std_specs::bits::{u64_trailing_zeros, u8_trailing_zeros};

verus! {

/// Bit `i` of the 64-bit word `x` is set. False outside `0..64`.
pub open spec fn bit_at(x: u64, i: int) -> bool {
    0 <= i < 64 && (x >> (i as u64)) & 1 == 1
}

/// Bit `i` of the byte `x` is set. False outside `0..8`.
pub open spec fn bit8_at(x: u8, i: int) -> bool {
    0 <= i < 8 && (x >> (i as u8)) & 1 == 1
}

/// A word with only bit `i` set.
pub open spec fn bit_mask(i: int) -> u64 {
    1u64 << (i as u64)
}

/// The word made of eight copies of `byte`.
pub open spec fn spec_repeat_byte(byte: u8) -> u64 {
    let b = byte as u64;
    b | (b << 8) | (b << 16) | (b << 24) | (b << 32) | (b << 40) | (b << 48) | (b << 56)
}

/// The word `x` with its eight bytes in the opposite order.
pub open spec fn spec_swap_bytes(x: u64) -> u64 {
    ((x & 0x0000_0000_0000_00ffu64) << 56) | ((x & 0x0000_0000_0000_ff00u64) << 40) | ((x
        & 0x0000_0000_00ff_0000u64) << 24) | ((x & 0x0000_0000_ff00_0000u64) << 8) | ((x
        & 0x0000_00ff_0000_0000u64) >> 8) | ((x & 0x0000_ff00_0000_0000u64) >> 24) | ((x
        & 0x00ff_0000_0000_0000u64) >> 40) | ((x & 0xff00_0000_0000_0000u64) >> 56)
}

/// No bit of zero is set.
pub proof fn lemma_bit_zero(i: int)
    ensures
        !bit_at(0, i),
        !bit8_at(0, i),
{
    if 0 <= i < 64 {
        let k = i as u64;
        assert((0u64 >> k) & 1 == 0) by (bit_vector);
    }
    if 0 <= i < 8 {
        let k = i as u8;
        assert((0u8 >> k) & 1 == 0) by (bit_vector);
    }
}

/// Setting bit `i` sets that bit and leaves the others.
pub proof fn lemma_bit_set(x: u64, i: int, j: int)
    requires
        0 <= i < 64,
    ensures
        bit_at(x | bit_mask(i), j) == (j == i || bit_at(x, j)),
{
    if 0 <= j < 64 {
        let a = i as u64;
        let b = j as u64;
        assert(a < 64 && b < 64 ==> (((x | (1u64 << a)) >> b) & 1 == 1) == (b == a || (x >> b) & 1
            == 1)) by (bit_vector);
    }
}

/// Clearing bit `i` clears that bit and leaves the others.
pub proof fn lemma_bit_clear(x: u64, i: int, j: int)
    requires
        0 <= i < 64,
    ensures
        bit_at(x & !bit_mask(i), j) == (j != i && bit_at(x, j)),
{
    if 0 <= j < 64 {
        let a = i as u64;
        let b = j as u64;
        assert(a < 64 && b < 64 ==> (((x & !(1u64 << a)) >> b) & 1 == 1) == (b != a && (x >> b) & 1
            == 1)) by (bit_vector);
    }
}

/// The bits of an intersection, a union and a complement.
pub proof fn lemma_bit_logic(x: u64, y: u64, j: int)
    ensures
        bit_at(x & y, j) == (bit_at(x, j) && bit_at(y, j)),
        bit_at(x | y, j) == (bit_at(x, j) || bit_at(y, j)),
        0 <= j < 64 ==> bit_at(!x, j) == !bit_at(x, j),
{
    if 0 <= j < 64 {
        let b = j as u64;
        assert(b < 64 ==> ((((x & y) >> b) & 1 == 1) == ((x >> b) & 1 == 1 && (y >> b) & 1 == 1))
            && ((((x | y) >> b) & 1 == 1) == ((x >> b) & 1 == 1 || (y >> b) & 1 == 1)) && ((((!x)
            >> b) & 1 == 1) == !((x >> b) & 1 == 1))) by (bit_vector);
    }
}

/// A shift to the left moves every bit `k` places up.
pub proof fn lemma_bit_shl(x: u64, k: int, j: int)
    requires
        0 <= k < 64,
    ensures
        bit_at(x << (k as u64), j) == (k <= j < 64 && bit_at(x, j - k)),
{
    if 0 <= j < 64 {
        let a = k as u64;
        let b = j as u64;
        if j >= k {
            let c = (j - k) as u64;
            assert(a < 64 && b < 64 && b >= a && c == b - a ==> (((x << a) >> b) & 1 == 1) == ((x
                >> c) & 1 == 1)) by (bit_vector);
        } else {
            assert(a < 64 && b < a ==> ((x << a) >> b) & 1 == 0) by (bit_vector);
        }
    }
}

/// A shift to the right moves every bit `k` places down.
pub proof fn lemma_bit_shr(x: u64, k: int, j: int)
    requires
        0 <= k < 64,
        0 <= j,
    ensures
        bit_at(x >> (k as u64), j) == bit_at(x, j + k),
{
    if j < 64 {
        let a = k as u64;
        let b = j as u64;
        if j + k < 64 {
            let c = (j + k) as u64;
            assert(a < 64 && b < 64 && c < 64 && c == b + a ==> (((x >> a) >> b) & 1 == 1) == ((x
                >> c) & 1 == 1)) by (bit_vector);
        } else {
            assert(a < 64 && b < 64 && a + b >= 64 ==> ((x >> a) >> b) & 1 == 0) by (bit_vector);
        }
    }
}

/// Two words with the same bits are the same word.
pub proof fn lemma_bits_ext(a: u64, b: u64)
    requires
        forall|i: int| 0 <= i < 64 ==> bit_at(a, i) == bit_at(b, i),
    ensures
        a == b,
{
    let d = a ^ b;
    if d != 0 {
        axiom_u64_trailing_zeros(d);
        let t = u64_trailing_zeros(d) as u64;
        assert((d >> t) & 1 == 1);
        assert(t < 64 && d == a ^ b && (d >> t) & 1 == 1 ==> ((a >> t) & 1 == 1) != ((b >> t) & 1
            == 1)) by (bit_vector);
        assert(bit_at(a, t as int) != bit_at(b, t as int));
    }
    assert(a ^ b == 0 ==> a == b) by (bit_vector);
}

/// A word is zero exactly when none of its bits is set.
pub proof fn lemma_zero_iff_no_bits(x: u64)
    ensures
        x == 0 <==> (forall|i: int| 0 <= i < 64 ==> !bit_at(x, i)),
{
    if x == 0 {
        assert forall|i: int| 0 <= i < 64 implies !bit_at(x, i) by {
            lemma_bit_zero(i);
        }
    } else {
        axiom_u64_trailing_zeros(x);
        let t = u64_trailing_zeros(x) as int;
        assert(bit_at(x, t));
    }
}

/// Bit `j` of a byte repeated eight times is bit `j % 8` of the byte.
pub proof fn lemma_bit_repeat(byte: u8, j: int)
    requires
        0 <= j < 64,
    ensures
        bit_at(spec_repeat_byte(byte), j) == bit8_at(byte, j % 8),
{
    let b = j as u64;
    let c = (j % 8) as u8;
    assert(b < 64 && c == b % 8 ==> ((spec_repeat_byte(byte) >> b) & 1 == 1) == ((byte >> c) & 1
        == 1)) by (bit_vector);
}

/// Reversing the bytes moves bit `j` to the mirrored byte, same place in it.
pub proof fn lemma_bit_swap_bytes(x: u64, j: int)
    requires
        0 <= j < 64,
    ensures
        bit_at(spec_swap_bytes(x), j) == bit_at(x, mirror_index(j)),
        0 <= mirror_index(j) < 64,
{
    let b = j as u64;
    let c = mirror_index(j) as u64;
    assert(c == b ^ 56) by (bit_vector)
        requires
            b < 64,
            c == (7 - b / 8) * 8 + b % 8,
    ;
    assert(b < 64 && c == b ^ 56 ==> ((spec_swap_bytes(x) >> b) & 1 == 1) == ((x >> c) & 1 == 1))
        by (bit_vector);
}

/// The index that bit `j` has after the bytes are reversed: same place in
/// the byte, byte `7 - j / 8`.
pub open spec fn mirror_index(j: int) -> int {
    (7 - j / 8) * 8 + j % 8
}

/// Setting or clearing bit `i` of a byte changes that bit and leaves the others.
pub proof fn lemma_bit8_set(x: u8, i: int, j: int)
    requires
        0 <= i < 8,
    ensures
        bit8_at(x | (1u8 << (i as u8)), j) == (j == i || bit8_at(x, j)),
        bit8_at(x & !(1u8 << (i as u8)), j) == (j != i && bit8_at(x, j)),
{
    if 0 <= j < 8 {
        let a = i as u8;
        let b = j as u8;
        assert(a < 8 && b < 8 ==> ((((x | (1u8 << a)) >> b) & 1 == 1) == (b == a || (x >> b) & 1
            == 1)) && ((((x & !(1u8 << a)) >> b) & 1 == 1) == (b != a && (x >> b) & 1 == 1)))
            by (bit_vector);
    }
}

/// Every tile but those of the first file.
pub const NOT_FILE_A: u64 = 0xfefe_fefe_fefe_fefe;

/// Every tile but those of the last file.
pub const NOT_FILE_H: u64 = 0x7f7f_7f7f_7f7f_7f7f;

/// Every tile but those of the first two files.
pub const NOT_FILE_AB: u64 = 0xfcfc_fcfc_fcfc_fcfc;

/// Every tile but those of the last two files.
pub const NOT_FILE_GH: u64 = 0x3f3f_3f3f_3f3f_3f3f;

/// The tiles of the second rank.
pub const SECOND_RANK: u64 = 0x0000_0000_0000_ff00;

/// The tiles of the last rank.
pub const LAST_RANK: u64 = 0xff00_0000_0000_0000;

/// Which tiles the file and rank masks hold.
pub proof fn lemma_bit_masks(j: int)
    requires
        0 <= j < 64,
    ensures
        bit_at(NOT_FILE_A, j) == (j % 8 != 0),
        bit_at(NOT_FILE_H, j) == (j % 8 != 7),
        bit_at(NOT_FILE_AB, j) == (j % 8 >= 2),
        bit_at(NOT_FILE_GH, j) == (j % 8 <= 5),
        bit_at(SECOND_RANK, j) == (8 <= j < 16),
        bit_at(LAST_RANK, j) == (56 <= j),
{
    let b = j as u64;
    assert(b < 64 ==> (((0xfefe_fefe_fefe_fefeu64 >> b) & 1 == 1) == (b % 8 != 0))
        && (((0x7f7f_7f7f_7f7f_7f7fu64 >> b) & 1 == 1) == (b % 8 != 7)) && (((0xfcfc_fcfc_fcfc_fcfcu64
        >> b) & 1 == 1) == (b % 8 >= 2)) && (((0x3f3f_3f3f_3f3f_3f3fu64 >> b) & 1 == 1) == (b % 8
        <= 5)) && (((0x0000_0000_0000_ff00u64
        >> b) & 1 == 1) == (8 <= b && b < 16)) && (((0xff00_0000_0000_0000u64 >> b) & 1 == 1) == (56
        <= b))) by (bit_vector);
}

/// A one-bit word holds its bit and no other.
pub proof fn lemma_bit_single(i: int, j: int)
    requires
        0 <= i < 64,
    ensures
        bit_at(bit_mask(i), j) == (i == j),
{
    if 0 <= j < 64 {
        let a = i as u64;
        let b = j as u64;
        assert(a < 64 && b < 64 ==> (((1u64 << a) >> b) & 1 == 1) == (a == b)) by (bit_vector);
    }
}

/// The identities of XOR that keeping a fingerprint up to date rests on.
pub proof fn lemma_xor_algebra(a: u64, b: u64, c: u64, d: u64)
    by (bit_vector)
    ensures
        (a ^ b) ^ b ^ c == a ^ c,
        (a ^ b ^ c) ^ d == (a ^ d) ^ b ^ c,
        (a ^ b) ^ ((c ^ b) ^ 0) == a ^ c,
        (a ^ b) ^ ((c ^ 0) ^ b) == a ^ c,
        a ^ 0 == a,
        a ^ a == 0,
        a ^ b == b ^ a,
        (a ^ b) ^ b == a,
        a ^ c == b ^ c ==> a == b,
{
}

/// A fingerprint that was the fold before the tiles changed is the fold
/// after, when it changed by the tiles' constants alone.
pub proof fn lemma_hash_refold(v1: u64, v2: u64, t1: u64, t2: u64, c: u64, e: u64, a: u64)
    by (bit_vector)
    requires
        v1 == t1 ^ c ^ e ^ a,
        v2 ^ t2 == v1 ^ t1,
    ensures
        v2 == t2 ^ c ^ e ^ a,
{
}

/// A fingerprint stays the fold when the constant of the old rights word
/// is toggled out and that of the new one in.
pub proof fn lemma_hash_rights(v: u64, t: u64, c0: u64, c1: u64, e: u64, a: u64)
    by (bit_vector)
    requires
        v == t ^ c0 ^ e ^ a,
    ensures
        (v ^ c0) ^ c1 == t ^ c1 ^ e ^ a,
{
}

/// The fingerprint after a move, from the fingerprint before it: the old
/// rights and en-passant constants go out, the tiles' constants change, the
/// side constant is toggled, the new constants come in.
pub proof fn lemma_hash_after_make(
    h0: u64,
    h3: u64,
    h6: u64,
    t0: u64,
    t1: u64,
    c0: u64,
    c1: u64,
    e0: u64,
    e1: u64,
    a0: u64,
    a1: u64,
    side: u64,
)
    by (bit_vector)
    requires
        h0 == t0 ^ c0 ^ e0 ^ a0,
        h3 ^ t1 == ((h0 ^ e0) ^ c0) ^ t0,
        h6 == ((h3 ^ side) ^ e1) ^ c1,
        (a0 == 0 && a1 == side) || (a0 == side && a1 == 0),
    ensures
        h6 == t1 ^ c1 ^ e1 ^ a1,
{
}

/// The fingerprint after a move is taken back, from the fingerprint before.
pub proof fn lemma_hash_after_unmake(
    h0: u64,
    h4: u64,
    h5: u64,
    h6: u64,
    t0: u64,
    t1: u64,
    c0: u64,
    c1: u64,
    e0: u64,
    e1: u64,
    a0: u64,
    a1: u64,
    side: u64,
)
    by (bit_vector)
    requires
        h0 == t0 ^ c0 ^ e0 ^ a0,
        h4 == (((h0 ^ e0) ^ c0) ^ c1) ^ side,
        h5 ^ t1 == h4 ^ t0,
        h6 == h5 ^ e1,
        (a0 == 0 && a1 == side) || (a0 == side && a1 == 0),
    ensures
        h6 == t1 ^ c1 ^ e1 ^ a1,
{
}

/// Whether bit `i` of a byte is set.
pub fn get_bit8(x: u8, i: u8) -> (b: bool)
    requires
        i < 8,
    ensures
        b == bit8_at(x, i as int),
{
    (x >> i) & 1 == 1
}

/// Whether bit `i` of a word is set.
pub fn get_bit(x: u64, i: u8) -> (b: bool)
    requires
        i < 64,
    ensures
        b == bit_at(x, i as int),
{
    (x >> (i as u64)) & 1 == 1
}

/// Builds the word made of eight copies of `byte`.
pub fn repeat_byte_u64(byte: u8) -> (word: u64)
    ensures
        word == spec_repeat_byte(byte),
        forall|j: int| 0 <= j < 64 ==> bit_at(word, j) == bit8_at(byte, j % 8),
{
    let b: u64 = byte as u64;
    let word: u64 = b | (b << 8) | (b << 16) | (b << 24) | (b << 32) | (b << 40) | (b << 48) | (b
        << 56);
    proof {
        assert forall|j: int| 0 <= j < 64 implies bit_at(word, j) == bit8_at(byte, j % 8) by {
            lemma_bit_repeat(byte, j);
        }
    }
    word
}

/// Reverses the order of the eight bytes of `x`.
pub fn swap_bytes_u64(x: u64) -> (r: u64)
    ensures
        r == spec_swap_bytes(x),
{
    ((x & 0x0000_0000_0000_00ffu64) << 56) | ((x & 0x0000_0000_0000_ff00u64) << 40) | ((x
        & 0x0000_0000_00ff_0000u64) << 24) | ((x & 0x0000_0000_ff00_0000u64) << 8) | ((x
        & 0x0000_00ff_0000_0000u64) >> 8) | ((x & 0x0000_ff00_0000_0000u64) >> 24) | ((x
        & 0x00ff_0000_0000_0000u64) >> 40) | ((x & 0xff00_0000_0000_0000u64) >> 56)
}

/// Reverses the order of the eight bytes of the word in place.
pub fn swap_bytes_inplace_u64(x: &mut u64)
    ensures
        *final(x) == spec_swap_bytes(*old(x)),
{
    *x = swap_bytes_u64(*x);
}

/// The set bits of `x` below position `n`, least significant first.
pub open spec fn bits_below(x: u64, n: int) -> Seq<u8>
    decreases n,
{
    if n <= 0 {
        Seq::empty()
    } else if bit_at(x, n - 1) {
        bits_below(x, n - 1).push((n - 1) as u8)
    } else {
        bits_below(x, n - 1)
    }
}

/// The positions of the set bits of `x`, least significant first.
pub open spec fn set_bits(x: u64) -> Seq<u8> {
    bits_below(x, 64)
}

/// `bits_below(x, n)` lists exactly the set bits under `n`, in ascending
/// order.
pub proof fn lemma_bits_below(x: u64, n: int)
    requires
        0 <= n <= 64,
    ensures
        forall|k: int| 0 <= k < bits_below(x, n).len() ==> bits_below(x, n)[k] < n && bit_at(x, #[trigger] bits_below(x, n)[k] as int),
        forall|j: int| 0 <= j < n && bit_at(x, j) ==> bits_below(x, n).contains(j as u8),
        forall|k: int, l: int| 0 <= k < l < bits_below(x, n).len() ==> bits_below(x, n)[k] < bits_below(x, n)[l],
        bits_below(x, n).len() <= n,
    decreases n,
{
    if n > 0 {
        lemma_bits_below(x, n - 1);
        let prev = bits_below(x, n - 1);
        let cur = bits_below(x, n);
        if bit_at(x, n - 1) {
            assert(cur[prev.len() as int] == (n - 1) as u8);
            assert forall|j: int| 0 <= j < n && bit_at(x, j) implies cur.contains(j as u8) by {
                if j < n - 1 {
                    let k = choose|k: int| 0 <= k < prev.len() && prev[k] == j as u8;
                    assert(cur[k] == j as u8);
                } else {
                    assert(cur[prev.len() as int] == j as u8);
                }
            }
        } else {
            assert(cur == prev);
        }
    }
}

/// What `set_bits` lists: every entry is a set bit under 64, every set bit
/// is listed, and the entries ascend strictly.
pub proof fn lemma_set_bits(x: u64)
    ensures
        forall|k: int| 0 <= k < set_bits(x).len() ==> set_bits(x)[k] < 64 && bit_at(x, #[trigger] set_bits(x)[k] as int),
        forall|j: int| bit_at(x, j) ==> set_bits(x).contains(j as u8),
        forall|k: int, l: int| 0 <= k < l < set_bits(x).len() ==> set_bits(x)[k] < set_bits(x)[l],
        set_bits(x).len() <= 64,
{
    lemma_bits_below(x, 64);
}

proof fn lemma_bits_below_same(x: u64, y: u64, n: int)
    requires
        0 <= n <= 64,
        forall|j: int| 0 <= j < n ==> bit_at(x, j) == bit_at(y, j),
    ensures
        bits_below(x, n) == bits_below(y, n),
    decreases n,
{
    if n > 0 {
        lemma_bits_below_same(x, y, n - 1);
    }
}

proof fn lemma_bits_below_none(x: u64, n: int)
    requires
        0 <= n <= 64,
        forall|j: int| 0 <= j < n ==> !bit_at(x, j),
    ensures
        bits_below(x, n) == Seq::<u8>::empty(),
    decreases n,
{
    if n > 0 {
        lemma_bits_below_none(x, n - 1);
    }
}

/// Taking the lowest set bit `i` out of `x` takes the head off its list.
pub proof fn lemma_bits_pop_lowest(x: u64, y: u64, i: int, n: int)
    requires
        0 <= i < n <= 64,
        bit_at(x, i),
        forall|j: int| 0 <= j < i ==> !bit_at(x, j),
        forall|j: int| 0 <= j < 64 ==> bit_at(y, j) == (j != i && bit_at(x, j)),
    ensures
        bits_below(x, n) == seq![i as u8] + bits_below(y, n),
    decreases n,
{
    if n == i + 1 {
        lemma_bits_below_none(x, i);
        lemma_bits_below_none(y, n);
        assert(bits_below(x, n) == bits_below(x, i).push(i as u8));
        assert(bits_below(x, n) =~= seq![i as u8] + bits_below(y, n));
    } else {
        lemma_bits_pop_lowest(x, y, i, n - 1);
        if bit_at(x, n - 1) {
            assert(bits_below(x, n) =~= seq![i as u8] + bits_below(y, n));
        }
    }
}

/// A fixed-width string of bits that can report its lowest set bit and
/// clear a bit.
pub trait Bitstring: Sized {
    /// The number of bits in the string.
    spec fn spec_width() -> int;

    /// Bit `i` of the string is set.
    spec fn has(&self, i: int) -> bool;

    fn width() -> (w: u8)
        ensures
            w == Self::spec_width(),
    ;

    /// The position of the lowest set bit, or the width if none is set.
    fn trailing_zeros(&self) -> (r: u8)
        ensures
            r <= Self::spec_width(),
            r < Self::spec_width() ==> self.has(r as int),
            forall|j: int| 0 <= j < r ==> !self.has(j),
    ;

    fn clear(&mut self, bitpos: u8)
        requires
            bitpos < Self::spec_width(),
        ensures
            forall|j: int| 0 <= j < Self::spec_width() ==> final(self).has(j) == (j != bitpos && old(self).has(j)),
    ;
}

impl Bitstring for u64 {
    open spec fn spec_width() -> int {
        64
    }

    open spec fn has(&self, i: int) -> bool {
        bit_at(*self, i)
    }

    fn width() -> (w: u8) {
        64
    }

    fn trailing_zeros(&self) -> (r: u8) {
        proof {
            axiom_u64_trailing_zeros(*self);
        }
        let r: u32 = u64::trailing_zeros(*self);
        r as u8
    }

    fn clear(&mut self, bitpos: u8) {
        let before: u64 = *self;
        let cleared: u64 = before & !(1u64 << (bitpos as u64));
        proof {
            assert forall|j: int| 0 <= j < 64 implies cleared.has(j) == (j != bitpos && before.has(
                j,
            )) by {
                lemma_bit_clear(before, bitpos as int, j);
            }
        }
        *self = cleared;
    }
}

impl Bitstring for u8 {
    open spec fn spec_width() -> int {
        8
    }

    open spec fn has(&self, i: int) -> bool {
        bit8_at(*self, i)
    }

    fn width() -> (w: u8) {
        8
    }

    fn trailing_zeros(&self) -> (r: u8) {
        proof {
            axiom_u8_trailing_zeros(*self);
        }
        let r: u32 = u8::trailing_zeros(*self);
        r as u8
    }

    fn clear(&mut self, bitpos: u8) {
        let before: u8 = *self;
        let cleared: u8 = before & !(1u8 << bitpos);
        proof {
            assert forall|j: int| 0 <= j < 8 implies cleared.has(j) == (j != bitpos && before.has(
                j,
            )) by {
                lemma_bit8_set(before, bitpos as int, j);
            }
        }
        *self = cleared;
    }
}

/// Walks the set bits of a bit string from the lowest upwards, clearing each
/// as it is handed out.
pub struct BitscanIterator<B: Bitstring> {
    bitstring: B,
}

impl<B: Bitstring> BitscanIterator<B> {
    /// The bits that have not been handed out yet.
    pub closed spec fn remaining(&self) -> B {
        self.bitstring
    }

    /// Hands out the lowest remaining set bit, or `None` when no bit is
    /// left.
    pub fn next(&mut self) -> (r: Option<u8>)
        ensures
            match r {
                None => {
                    &&& final(self).remaining() == old(self).remaining()
                    &&& forall|j: int| 0 <= j < B::spec_width() ==> !old(self).remaining().has(j)
                },
                Some(i) => {
                    &&& i < B::spec_width()
                    &&& old(self).remaining().has(i as int)
                    &&& forall|j: int| 0 <= j < i ==> !old(self).remaining().has(j)
                    &&& forall|j: int| 0 <= j < B::spec_width() ==> final(self).remaining().has(j) == (j != i && old(self).remaining().has(j))
                },
            },
    {
        let index: u8 = self.bitstring.trailing_zeros();
        if index == B::width() {
            None
        } else {
            self.bitstring.clear(index);
            Some(index)
        }
    }
}

/// Starts a scan over the set bits of `bitstring`.
pub fn bitscan<B: Bitstring>(bitstring: B) -> (it: BitscanIterator<B>)
    ensures
        it.remaining() == bitstring,
{
    BitscanIterator { bitstring }
}

/// Collects the positions of the set bits of `x`, lowest first.
pub fn scan_bits(x: u64) -> (found: Vec<u8>)
    ensures
        found@ == set_bits(x),
{
    let mut found: Vec<u8> = Vec::new();
    let mut it = bitscan(x);
    loop
        invariant
            found@ + set_bits(it.remaining()) == set_bits(x),
        ensures
            found@ == set_bits(x),
        decreases set_bits(it.remaining()).len(),
    {
        let ghost before = it.remaining();
        match it.next() {
            None => {
                proof {
                    assert forall|j: int| 0 <= j < 64 implies !bit_at(before, j) by {
                        assert(!before.has(j));
                    }
                    lemma_bits_below_none(before, 64);
                    assert(found@ + Seq::<u8>::empty() =~= found@);
                }
                break ;
            },
            Some(i) => {
                proof {
                    let after = it.remaining();
                    assert(before.has(i as int));
                    assert forall|j: int| 0 <= j < i implies !bit_at(before, j) by {
                        assert(!before.has(j));
                    }
                    assert forall|j: int| 0 <= j < 64 implies bit_at(after, j) == (j != i && bit_at(
                        before,
                        j,
                    )) by {
                        assert(after.has(j) == (j != i && before.has(j)));
                    }
                    lemma_bits_pop_lowest(before, after, i as int, 64);
                    lemma_set_bits(before);
                    assert((found@.push(i)) + set_bits(it.remaining()) =~= found@ + (seq![i]
                        + set_bits(it.remaining())));
                }
                found.push(i);
            },
        }
    }
    found
}

} // verus!
