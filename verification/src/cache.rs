//! Position fingerprints and the transposition table keyed by them.

use vstd::prelude::*;
use rand::Rng;
use rand::SeedableRng;
use rand::rngs::StdRng;
use crate::gamestate::ChessGame;
use crate::grid::{File, StandardCoordinate};
use crate::piece::Piece;

verus! {

/// The number of fingerprint constants: 768 for piece placements, 16 for
/// castling rights, 9 for the en-passant file, 1 for the side to move.
pub const HASH_WORDS: usize = 794;

/// The words that the standard generator of the `rand` crate yields, in
/// order, when it is seeded with `seed` and asked to fill `count` words.
pub uninterp spec fn seeded_stream(seed: Seq<u8>, count: nat) -> Seq<u64>;

/// Seeds `rand`'s `StdRng` with `seed` (`SeedableRng::from_seed`) and has it
/// fill a buffer of `count` words (`Rng::fill`). The generator is a fixed
/// stream cipher, so the words depend on the seed and the count alone; the
/// contract gives them a name and states their number.
#[verifier::external_body]
fn seeded_words(seed: &[u8; 32], count: usize) -> (words: Vec<u64>)
    ensures
        words@ == seeded_stream(seed@, count as nat),
        words@.len() == count,
{
    let mut rng = StdRng::from_seed(*seed);
    let mut words: Vec<u64> = vec![0u64; count];
    rng.fill(words.as_mut_slice());
    words
}

/// Asks `rand`'s thread-local generator (`thread_rng`, `Rng::fill`) for 32
/// bytes. Nothing is claimed of the bytes: they differ from call to call.
/// The generator seeds itself from the operating system when a thread first
/// uses it, and gives up only where the system has no randomness to offer.
#[verifier::external_body]
fn random_seed() -> (seed: [u8; 32]) {
    let mut seed = [0u8; 32];
    rand::thread_rng().fill(&mut seed);
    seed
}

/// The constants that positions are fingerprinted with.
#[derive(Clone, PartialEq, Eq, Debug)]
pub struct HashChars {
    pub piece_placements: [u64; 768],
    pub crights: [u64; 16],
    pub ep_vuln: [u64; 9],
    pub active: u64,
}

impl HashChars {
    /// The constants are the words of `words`, in order: piece placements,
    /// castling rights, en-passant files, side to move.
    pub open spec fn drawn_from(&self, words: Seq<u64>) -> bool {
        &&& words.len() == HASH_WORDS
        &&& forall|i: int| 0 <= i < 768 ==> self.piece_placements[i] == words[i]
        &&& forall|i: int| 0 <= i < 16 ==> self.crights[i] == words[768 + i]
        &&& forall|i: int| 0 <= i < 9 ==> self.ep_vuln[i] == words[784 + i]
        &&& self.active == words[793]
    }

    /// Lays a drawn sequence of words out as the tables of constants.
    pub fn from_words(words: &Vec<u64>) -> (chs: Self)
        requires
            words@.len() == HASH_WORDS,
        ensures
            chs.drawn_from(words@),
    {
        let mut piece_placements = [0u64; 768];
        let mut crights = [0u64; 16];
        let mut ep_vuln = [0u64; 9];
        let mut i: usize = 0;
        while i < 768
            invariant
                i <= 768,
                words@.len() == HASH_WORDS,
                forall|j: int| 0 <= j < i ==> piece_placements[j] == words@[j],
            decreases 768 - i,
        {
            piece_placements[i] = words[i];
            i += 1;
        }
        i = 0;
        while i < 16
            invariant
                i <= 16,
                words@.len() == HASH_WORDS,
                forall|j: int| 0 <= j < i ==> crights[j] == words@[768 + j],
            decreases 16 - i,
        {
            crights[i] = words[768 + i];
            i += 1;
        }
        i = 0;
        while i < 9
            invariant
                i <= 9,
                words@.len() == HASH_WORDS,
                forall|j: int| 0 <= j < i ==> ep_vuln[j] == words@[784 + j],
            decreases 9 - i,
        {
            ep_vuln[i] = words[784 + i];
            i += 1;
        }
        let active: u64 = words[793];
        HashChars { piece_placements, crights, ep_vuln, active }
    }

    /// The constants that the seed determines.
    pub fn new(seed: [u8; 32]) -> (chs: Self)
        ensures
            chs.drawn_from(seeded_stream(seed@, HASH_WORDS as nat)),
    {
        let words: Vec<u64> = seeded_words(&seed, HASH_WORDS);
        Self::from_words(&words)
    }

    /// Constants from a seed that the thread-local generator picks.
    pub fn new_random() -> (chs: Self)
        ensures
            exists|seed: Seq<u8>| chs.drawn_from(seeded_stream(seed, HASH_WORDS as nat)),
    {
        let seed: [u8; 32] = random_seed();
        let chs = Self::new(seed);
        assert(chs.drawn_from(seeded_stream(seed@, HASH_WORDS as nat)));
        chs
    }
}

/// The constant that a tile's content contributes to a fingerprint: zero
/// for an empty tile.
pub open spec fn tile_const(chs: HashChars, s: int, content: Option<Piece>) -> u64 {
    match content {
        None => 0,
        Some(p) => chs.piece_placements[s * 12 + p.spec_index()],
    }
}

/// The place of an en-passant file in the table of constants: 0 for no
/// file, else one more than the file's index.
pub open spec fn ep_key(file: Option<File>) -> int {
    match file {
        None => 0,
        Some(f) => f.spec_index() + 1,
    }
}

/// A fingerprint that is kept up to date by toggling constants in and out.
#[derive(Clone, PartialEq, Eq, Debug)]
pub struct IncrementalHash {
    pub value: u64,
    pub chs: HashChars,
}

impl IncrementalHash {
    pub fn new(chs: HashChars) -> (h: Self)
        ensures
            h.value == 0,
            h.chs == chs,
    {
        Self { value: 0, chs }
    }

    /// Toggles the constant of `piece` standing on `pos`.
    pub fn toggle_tile(&mut self, pos: StandardCoordinate, piece: Piece)
        requires
            pos.wf(),
        ensures
            final(self).value == old(self).value ^ tile_const(old(self).chs, pos.index as int, Some(piece)),
            final(self).chs == old(self).chs,
    {
        let lut_key: usize = (pos.index() as usize) * 12 + (piece.index() as usize);
        let ch: u64 = self.chs.piece_placements[lut_key];
        self.value = self.value ^ ch;
    }

    /// Toggles the constant of the side to move.
    pub fn toggle_active(&mut self)
        ensures
            final(self).value == old(self).value ^ old(self).chs.active,
            final(self).chs == old(self).chs,
    {
        self.value = self.value ^ self.chs.active;
    }

    /// Toggles the constant of a castling-rights word.
    pub fn toggle_crights(&mut self, crights: crate::crights::CastlingRights)
        requires
            crights.wf(),
        ensures
            final(self).value == old(self).value ^ old(self).chs.crights[crights.data as int],
            final(self).chs == old(self).chs,
    {
        let lut_key: usize = crights.data() as usize;
        let ch: u64 = self.chs.crights[lut_key];
        self.value = self.value ^ ch;
    }

    /// Toggles the constant of an en-passant file, or of the absence of
    /// one.
    pub fn toggle_ep_vuln(&mut self, option_file: Option<File>)
        ensures
            final(self).value == old(self).value ^ old(self).chs.ep_vuln[ep_key(option_file)],
            final(self).chs == old(self).chs,
    {
        let lut_key: usize = match option_file {
            None => 0,
            Some(f) => (f.index() as usize) + 1,
        };
        let ch: u64 = self.chs.ep_vuln[lut_key];
        self.value = self.value ^ ch;
    }

    pub fn value(&self) -> (v: u64)
        ensures
            v == self.value,
    {
        self.value
    }
}

/// What the table remembers of a position: the best score found and the
/// ordinal of the move that gave it.
#[derive(Copy, Clone, Debug, PartialEq, Eq)]
pub struct CacheValue {
    pub bestmov_id: u8,
    pub score: i16,
}

/// One slot of the table: a value, the depth it was searched to, and the
/// fingerprint of the position it belongs to.
#[derive(Clone, Copy, Debug, PartialEq, Eq)]
pub struct InternalCacheEntry {
    pub value: CacheValue,
    pub depth: u8,
    pub hash: u64,
}

/// The number of bytes a slot is counted as when a memory budget is turned
/// into a number of slots.
pub const ENTRY_WIDTH: u64 = 16;

/// The slot that a fingerprint falls into in a table of `len` slots.
pub open spec fn slot_of(hash: u64, len: nat) -> int {
    (hash as int) % (len as int)
}

/// What a table answers for a fingerprint and a depth: the value in the
/// fingerprint's slot, if the slot holds that fingerprint at that depth or
/// deeper.
pub open spec fn spec_lookup(slots: Seq<Option<InternalCacheEntry>>, hash: u64, depth: u8) -> Option<CacheValue> {
    match slots[slot_of(hash, slots.len())] {
        Some(entry) => if entry.hash == hash && entry.depth >= depth {
            Some(entry.value)
        } else {
            None
        },
        None => None,
    }
}

/// The slots after a value is remembered for a fingerprint at a depth:
/// left alone where the table already answers for the fingerprint at that
/// depth, else with the fingerprint's slot overwritten.
pub open spec fn spec_update(
    slots: Seq<Option<InternalCacheEntry>>,
    hash: u64,
    depth: u8,
    value: CacheValue,
) -> Seq<Option<InternalCacheEntry>> {
    if spec_lookup(slots, hash, depth) is Some {
        slots
    } else {
        slots.update(slot_of(hash, slots.len()), Some(InternalCacheEntry { value, depth, hash }))
    }
}

/// The transposition table: one slot per residue of the fingerprint, one
/// probe, no chaining.
pub struct Cache {
    pub vec: Vec<Option<InternalCacheEntry>>,
}

impl Cache {
    /// The table has a slot.
    pub open spec fn wf(&self) -> bool {
        self.vec@.len() > 0
    }

    /// An empty table for a budget of `mem_capacity` mebibytes.
    pub fn new(mem_capacity: u64) -> (cache: Self)
        requires
            1 <= mem_capacity,
            mem_capacity * 1048576 <= u64::MAX,
            mem_capacity * 65536 <= usize::MAX,
        ensures
            cache.wf(),
            cache.vec@.len() == mem_capacity * 65536,
            forall|i: int| 0 <= i < cache.vec@.len() ==> cache.vec@[i] is None,
    {
        let len: u64 = (mem_capacity * 1048576) / ENTRY_WIDTH;
        Self { vec: vec![None; len as usize] }
    }

    /// The score remembered for the position at the given depth or deeper.
    pub fn lookup_score_atleast(&self, state: &ChessGame, depth: u8) -> (score: Option<i16>)
        requires
            self.wf(),
        ensures
            score == (match spec_lookup(self.vec@, state.hash.value, depth) {
                Some(v) => Some(v.score),
                None => None,
            }),
    {
        match self.lookup_atleast(state, depth) {
            Some(value) => Some(value.score),
            None => None,
        }
    }

    /// The value remembered for the position at the given depth or deeper.
    pub fn lookup_atleast(&self, state: &ChessGame, depth: u8) -> (value: Option<CacheValue>)
        requires
            self.wf(),
        ensures
            value == spec_lookup(self.vec@, state.hash.value, depth),
    {
        let lut_key: usize = (state.hash.value() % (self.vec.len() as u64)) as usize;
        match self.vec[lut_key] {
            Some(entry) => {
                if entry.hash == state.hash.value() && entry.depth >= depth {
                    Some(entry.value)
                } else {
                    None
                }
            },
            None => None,
        }
    }

    /// The value remembered for the position at any depth.
    pub fn lookup_any(&self, state: &ChessGame) -> (value: Option<CacheValue>)
        requires
            self.wf(),
        ensures
            value == spec_lookup(self.vec@, state.hash.value, 0),
    {
        self.lookup_atleast(state, 0)
    }

    /// Remembers a value for the position at a depth, unless the table
    /// already answers for it at that depth; whatever the slot held is
    /// overwritten.
    pub fn update(&mut self, state: &ChessGame, depth: u8, value: CacheValue)
        requires
            old(self).wf(),
        ensures
            final(self).wf(),
            final(self).vec@ == spec_update(old(self).vec@, state.hash.value, depth, value),
            spec_lookup(final(self).vec@, state.hash.value, depth) is Some,
    {
        if self.lookup_atleast(state, depth).is_some() {
            return ;
        }
        let lut_key: usize = (state.hash.value() % (self.vec.len() as u64)) as usize;
        self.vec[lut_key] = Some(InternalCacheEntry { depth, hash: state.hash.value(), value });
    }
}

} // verus!
