//! Game transcripts: a sequence of moves written as text, separated by
//! semicolons. A move is `CastleKingside`, `CastleQueenside`, or two tiles
//! and an optional promotion letter separated by colons, as in `E2:E4` and
//! `E7:E8:q`. Blanks around a token do not count.

use vstd::prelude::*;
use vstd::string::StringExecFns;
use vstd::string::StringSliceAdditionalSpecFns;
use crate::gamestate::{ChessGame, Position};
use crate::grid::{File, ParseFileErr, ParseRankErr, ParseStandardCoordinateError, Rank};
use crate::grid::{Side, StandardCoordinate};
use crate::makemove::{lemma_same_position_valid, make_move};
use crate::mov::{AnyMove, PieceMove};
use crate::movegen::dispatch::legal_moves;
use crate::movegen::types::{moves_of, GeneratedMove};
use crate::piece::Species;
use crate::rules::{legal, lemma_legal_applicable, spec_make};

verus! {

/// A blank: a space, a tab, a line feed, a vertical tab, a form feed or a
/// carriage return.
pub open spec fn is_space(b: u8) -> bool {
    b == 32 || (9 <= b && b <= 13)
}

/// The parts of `s` between occurrences of `sep`. A sequence without
/// `sep` is one part; an empty sequence is one empty part.
pub open spec fn spec_split(s: Seq<u8>, sep: u8) -> Seq<Seq<u8>>
    decreases s.len(),
{
    if s.len() == 0 {
        seq![Seq::empty()]
    } else {
        let init = spec_split(s.drop_last(), sep);
        if s.last() == sep {
            init.push(Seq::empty())
        } else {
            init.update(init.len() - 1, init.last().push(s.last()))
        }
    }
}

/// `s` without its leading blanks.
pub open spec fn spec_trim_start(s: Seq<u8>) -> Seq<u8>
    decreases s.len(),
{
    if s.len() > 0 && is_space(s[0]) {
        spec_trim_start(s.subrange(1, s.len() as int))
    } else {
        s
    }
}

/// `s` without its trailing blanks.
pub open spec fn spec_trim_end(s: Seq<u8>) -> Seq<u8>
    decreases s.len(),
{
    if s.len() > 0 && is_space(s.last()) {
        spec_trim_end(s.drop_last())
    } else {
        s
    }
}

/// `s` without the blanks at either end.
pub open spec fn spec_trim(s: Seq<u8>) -> Seq<u8> {
    spec_trim_end(spec_trim_start(s))
}

/// The views of the parts of a list of byte strings.
pub open spec fn views(parts: Seq<Vec<u8>>) -> Seq<Seq<u8>> {
    Seq::new(parts.len(), |k: int| parts[k]@)
}

proof fn lemma_split_nonempty(s: Seq<u8>, sep: u8)
    ensures
        spec_split(s, sep).len() >= 1,
    decreases s.len(),
{
    if s.len() > 0 {
        lemma_split_nonempty(s.drop_last(), sep);
    }
}

/// Splits a byte string at every occurrence of `sep`.
pub fn split(bytes: &[u8], sep: u8) -> (parts: Vec<Vec<u8>>)
    ensures
        views(parts@) == spec_split(bytes@, sep),
{
    let mut parts: Vec<Vec<u8>> = Vec::new();
    let mut current: Vec<u8> = Vec::new();
    let mut i: usize = 0;
    proof {
        assert(bytes@.subrange(0, 0) =~= Seq::<u8>::empty());
        assert(views(parts@).push(current@) =~= seq![Seq::<u8>::empty()]);
    }
    while i < bytes.len()
        invariant
            i <= bytes.len(),
            spec_split(bytes@.subrange(0, i as int), sep) == views(parts@).push(current@),
        decreases bytes.len() - i,
    {
        let b: u8 = bytes[i];
        proof {
            let s = bytes@.subrange(0, i as int);
            let s2 = bytes@.subrange(0, i + 1);
            assert(s2.drop_last() =~= s);
            assert(s2.last() == b);
        }
        if b == sep {
            let ghost old_parts = parts@;
            let ghost old_current = current@;
            parts.push(current);
            current = Vec::new();
            proof {
                assert(views(parts@) =~= views(old_parts).push(old_current));
            }
        } else {
            let ghost old_current = current@;
            current.push(b);
            proof {
                let init = views(parts@).push(old_current);
                assert(init.update(init.len() - 1, init.last().push(b)) =~= views(parts@).push(current@));
            }
        }
        i += 1;
    }
    let ghost old_parts = parts@;
    let ghost last = current@;
    parts.push(current);
    proof {
        assert(bytes@.subrange(0, bytes@.len() as int) =~= bytes@);
        assert(views(parts@) =~= views(old_parts).push(last));
    }
    parts
}

/// Whether a byte is a blank.
pub fn is_space_byte(b: u8) -> (r: bool)
    ensures
        r == is_space(b),
{
    b == 32 || (9 <= b && b <= 13)
}

/// A byte string without the blanks at either end.
pub fn trim(bytes: &Vec<u8>) -> (trimmed: Vec<u8>)
    ensures
        trimmed@ == spec_trim(bytes@),
{
    let n: usize = bytes.len();
    let mut a: usize = 0;
    proof {
        assert(bytes@.subrange(0, n as int) =~= bytes@);
    }
    while a < n && is_space_byte(bytes[a])
        invariant
            a <= n,
            n == bytes@.len(),
            spec_trim_start(bytes@) == spec_trim_start(bytes@.subrange(a as int, n as int)),
        decreases n - a,
    {
        proof {
            let s = bytes@.subrange(a as int, n as int);
            assert(s.subrange(1, s.len() as int) =~= bytes@.subrange(a + 1, n as int));
        }
        a += 1;
    }
    let ghost front = bytes@.subrange(a as int, n as int);
    assert(spec_trim_start(bytes@) == front);
    let mut b: usize = n;
    while b > a && is_space_byte(bytes[b - 1])
        invariant
            a <= b <= n,
            n == bytes@.len(),
            front == bytes@.subrange(a as int, n as int),
            spec_trim_end(front) == spec_trim_end(bytes@.subrange(a as int, b as int)),
        decreases b,
    {
        proof {
            let s = bytes@.subrange(a as int, b as int);
            assert(s.drop_last() =~= bytes@.subrange(a as int, b - 1));
        }
        b -= 1;
    }
    let mut trimmed: Vec<u8> = Vec::new();
    let mut i: usize = a;
    while i < b
        invariant
            a <= i <= b <= n,
            n == bytes@.len(),
            trimmed@ == bytes@.subrange(a as int, i as int),
        decreases b - i,
    {
        trimmed.push(bytes[i]);
        proof {
            assert(bytes@.subrange(a as int, i as int).push(bytes@[i as int]) =~= bytes@.subrange(a as int, i + 1));
        }
        i += 1;
    }
    trimmed
}

/// Whether two byte strings are the same.
pub fn bytes_equal(a: &[u8], b: &[u8]) -> (same: bool)
    ensures
        same == (a@ == b@),
{
    if a.len() != b.len() {
        return false;
    }
    let mut i: usize = 0;
    while i < a.len()
        invariant
            i <= a.len(),
            a@.len() == b@.len(),
            forall|k: int| 0 <= k < i ==> a@[k] == b@[k],
        decreases a.len() - i,
    {
        if a[i] != b[i] {
            return false;
        }
        i += 1;
    }
    proof {
        assert(a@ =~= b@);
    }
    true
}

/// The value of a string of decimal digits, or `None` if a byte is not a
/// digit.
pub open spec fn digits_value(s: Seq<u8>) -> Option<nat>
    decreases s.len(),
{
    if s.len() == 0 {
        Some(0)
    } else if 48 <= s.last() && s.last() <= 57 {
        match digits_value(s.drop_last()) {
            Some(v) => Some((v * 10 + (s.last() - 48)) as nat),
            None => None,
        }
    } else {
        None
    }
}

/// The number that a byte string denotes as an unsigned byte: decimal
/// digits, at least one, after an optional plus sign, with a value of at
/// most 255.
pub open spec fn spec_parse_u8(s: Seq<u8>) -> Option<u8> {
    let body = if s.len() > 0 && s[0] == 43 {
        s.subrange(1, s.len() as int)
    } else {
        s
    };
    if body.len() == 0 {
        None
    } else {
        match digits_value(body) {
            Some(v) => if v <= 255 {
                Some(v as u8)
            } else {
                None
            },
            None => None,
        }
    }
}

proof fn lemma_digits_prefix(s: Seq<u8>, k: int)
    requires
        0 <= k <= s.len(),
    ensures
        digits_value(s.subrange(0, k)) is None ==> digits_value(s) is None,
        digits_value(s) matches Some(v) ==> digits_value(s.subrange(0, k)) matches Some(w) && w <= v,
    decreases s.len() - k,
{
    if k < s.len() {
        lemma_digits_prefix(s, k + 1);
        assert(s.subrange(0, k + 1).drop_last() =~= s.subrange(0, k));
    } else {
        assert(s.subrange(0, k) =~= s);
    }
}

/// Reads an unsigned byte in decimal.
pub fn parse_u8(bytes: &[u8]) -> (value: Option<u8>)
    ensures
        value == spec_parse_u8(bytes@),
{
    let n: usize = bytes.len();
    let start: usize = if n > 0 && bytes[0] == 43 {
        1
    } else {
        0
    };
    if start == n {
        return None;
    }
    let ghost body = bytes@.subrange(start as int, n as int);
    let mut acc: u16 = 0;
    let mut i: usize = start;
    proof {
        assert(body.subrange(0, 0) =~= Seq::<u8>::empty());
        if start == 0 {
            assert(body =~= bytes@);
        }
        assert(spec_parse_u8(bytes@) == (match digits_value(body) {
            Some(v) => if v <= 255 {
                Some(v as u8)
            } else {
                None
            },
            None => None,
        }));
    }
    while i < n
        invariant
            start <= i <= n,
            n == bytes@.len(),
            body == bytes@.subrange(start as int, n as int),
            digits_value(body.subrange(0, i - start)) == Some(acc as nat),
            acc <= 255,
            spec_parse_u8(bytes@) == (match digits_value(body) {
                Some(v) => if v <= 255 {
                    Some(v as u8)
                } else {
                    None
                },
                None => None,
            }),
        decreases n - i,
    {
        let b: u8 = bytes[i];
        proof {
            assert(body.subrange(0, i + 1 - start).drop_last() =~= body.subrange(0, i - start));
            assert(body.subrange(0, i + 1 - start).last() == b);
            lemma_digits_prefix(body, i + 1 - start);
        }
        if b < 48 || b > 57 {
            proof {
                assert(digits_value(body.subrange(0, i + 1 - start)) is None);
            }
            return None;
        }
        let next: u16 = acc * 10 + ((b - 48) as u16);
        proof {
            assert(digits_value(body.subrange(0, i + 1 - start)) == Some(next as nat));
        }
        if next > 255 {
            return None;
        }
        acc = next;
        i += 1;
    }
    proof {
        assert(body.subrange(0, n - start) =~= body);
    }
    Some(acc as u8)
}

/// The file that a byte string names: one letter, `A` to `H`.
pub open spec fn spec_parse_file(s: Seq<u8>) -> Result<File, ParseFileErr> {
    if s.len() == 1 && 65 <= s[0] && s[0] <= 72 {
        Ok(File::spec_from_index(s[0] - 65))
    } else {
        Err(ParseFileErr)
    }
}

/// The rank that a byte string names: a number from 1 to 8.
pub open spec fn spec_parse_rank(s: Seq<u8>) -> Result<Rank, ParseRankErr> {
    match spec_parse_u8(s) {
        None => Err(ParseRankErr::ParseIntErr),
        Some(v) => if v < 1 || v > 8 {
            Err(ParseRankErr::OutOfBounds(v))
        } else {
            Ok(Rank { index: (v - 1) as u8 })
        },
    }
}

/// The tile that a byte string names: a file letter and a rank digit.
pub open spec fn spec_parse_square(s: Seq<u8>) -> Result<StandardCoordinate, ParseStandardCoordinateError> {
    if s.len() != 2 {
        Err(ParseStandardCoordinateError::BadLen)
    } else {
        match spec_parse_file(s.subrange(0, 1)) {
            Err(e) => Err(ParseStandardCoordinateError::ParseFileErr(e)),
            Ok(f) => match spec_parse_rank(s.subrange(1, 2)) {
                Err(e) => Err(ParseStandardCoordinateError::ParseRankErr(e)),
                Ok(r) => Ok(StandardCoordinate { index: (r.index * 8 + f.spec_index()) as u8 }),
            },
        }
    }
}

/// Reads a file letter.
pub fn parse_file(bytes: &[u8]) -> (r: Result<File, ParseFileErr>)
    ensures
        r == spec_parse_file(bytes@),
{
    if bytes.len() == 1 && 65 <= bytes[0] && bytes[0] <= 72 {
        Ok(File::from_index(bytes[0] - 65))
    } else {
        Err(ParseFileErr)
    }
}

/// Reads a rank number.
pub fn parse_rank(bytes: &[u8]) -> (r: Result<Rank, ParseRankErr>)
    ensures
        r == spec_parse_rank(bytes@),
        r matches Ok(rank) ==> rank.wf(),
{
    match parse_u8(bytes) {
        None => Err(ParseRankErr::ParseIntErr),
        Some(index) => {
            if index < 1 || index > 8 {
                Err(ParseRankErr::OutOfBounds(index))
            } else {
                Ok(Rank::from_index(index - 1))
            }
        },
    }
}

/// Reads a tile: a file letter, then a rank digit.
pub fn parse_square(bytes: &[u8]) -> (r: Result<StandardCoordinate, ParseStandardCoordinateError>)
    ensures
        r == spec_parse_square(bytes@),
        r matches Ok(sq) ==> sq.wf(),
{
    if bytes.len() != 2 {
        return Err(ParseStandardCoordinateError::BadLen);
    }
    let first: [u8; 1] = [bytes[0]];
    let second: [u8; 1] = [bytes[1]];
    proof {
        assert(first@ =~= bytes@.subrange(0, 1));
        assert(second@ =~= bytes@.subrange(1, 2));
    }
    let file = match parse_file(first.as_slice()) {
        Ok(f) => f,
        Err(e) => {
            return Err(ParseStandardCoordinateError::ParseFileErr(e));
        },
    };
    let rank = match parse_rank(second.as_slice()) {
        Ok(r) => r,
        Err(e) => {
            return Err(ParseStandardCoordinateError::ParseRankErr(e));
        },
    };
    Ok(StandardCoordinate::new(rank, file))
}

/// What can be wrong with the text of a piece move.
#[derive(Debug, Clone, Copy, PartialEq, Eq)]
pub enum ParsePMoveErr {
    MissingOrigin,
    MalformedOrigin(ParseStandardCoordinateError),
    MissingDestin,
    MalformedDestin(ParseStandardCoordinateError),
    MalformedPromote,
    TooManyParts,
}

/// Why a transcript could not be applied.
#[derive(Debug, Clone, Copy, PartialEq, Eq)]
pub enum LoadGameErr {
    /// A token is not the text of a move.
    ParsePMove(ParsePMoveErr),
    /// A token is a move that is not legal where it stands.
    IllegalMove(AnyMove),
}

/// The species that a promotion letter stands for: `q`, `k` for knight,
/// `b` or `r`, in either case.
pub open spec fn spec_parse_promote(s: Seq<u8>) -> Option<Species> {
    if s.len() != 1 {
        None
    } else if s[0] == 113 || s[0] == 81 {
        Some(Species::Queen)
    } else if s[0] == 107 || s[0] == 75 {
        Some(Species::Knight)
    } else if s[0] == 98 || s[0] == 66 {
        Some(Species::Bishop)
    } else if s[0] == 114 || s[0] == 82 {
        Some(Species::Rook)
    } else {
        None
    }
}

/// The piece move that a token denotes: origin, destination and an
/// optional promotion letter, separated by colons, blanks around each
/// ignored. The first part that is wrong decides the error.
pub open spec fn spec_parse_pmove(token: Seq<u8>) -> Result<PieceMove, ParsePMoveErr> {
    let parts = spec_split(token, 58);
    match spec_parse_square(spec_trim(parts[0])) {
        Err(e) => Err(ParsePMoveErr::MalformedOrigin(e)),
        Ok(origin) => if parts.len() < 2 {
            Err(ParsePMoveErr::MissingDestin)
        } else {
            match spec_parse_square(spec_trim(parts[1])) {
                Err(e) => Err(ParsePMoveErr::MalformedDestin(e)),
                Ok(destin) => if parts.len() < 3 {
                    Ok(PieceMove { origin, destin, promote: None })
                } else {
                    match spec_parse_promote(spec_trim(parts[2])) {
                        None => Err(ParsePMoveErr::MalformedPromote),
                        Some(sp) => if parts.len() > 3 {
                            Err(ParsePMoveErr::TooManyParts)
                        } else {
                            Ok(PieceMove { origin, destin, promote: Some(sp) })
                        },
                    }
                },
            }
        },
    }
}

/// Reads a piece move.
pub fn parse_pmove_bytes(token: &[u8]) -> (r: Result<PieceMove, ParsePMoveErr>)
    ensures
        r == spec_parse_pmove(token@),
        r matches Ok(m) ==> m.wf(),
{
    let parts: Vec<Vec<u8>> = split(token, 58);
    proof {
        lemma_split_nonempty(token@, 58);
        assert(views(parts@).len() == parts@.len());
    }
    let origin_part: Vec<u8> = trim(&parts[0]);
    assert(views(parts@)[0] == parts@[0]@);
    let origin = match parse_square(origin_part.as_slice()) {
        Ok(sq) => sq,
        Err(e) => {
            return Err(ParsePMoveErr::MalformedOrigin(e));
        },
    };
    if parts.len() < 2 {
        return Err(ParsePMoveErr::MissingDestin);
    }
    let destin_part: Vec<u8> = trim(&parts[1]);
    assert(views(parts@)[1] == parts@[1]@);
    let destin = match parse_square(destin_part.as_slice()) {
        Ok(sq) => sq,
        Err(e) => {
            return Err(ParsePMoveErr::MalformedDestin(e));
        },
    };
    let mut promote: Option<Species> = None;
    if parts.len() >= 3 {
        let promote_part: Vec<u8> = trim(&parts[2]);
        assert(views(parts@)[2] == parts@[2]@);
        if promote_part.len() != 1 {
            return Err(ParsePMoveErr::MalformedPromote);
        }
        let ch: u8 = promote_part[0];
        if ch == 113 || ch == 81 {
            promote = Some(Species::Queen);
        } else if ch == 107 || ch == 75 {
            promote = Some(Species::Knight);
        } else if ch == 98 || ch == 66 {
            promote = Some(Species::Bishop);
        } else if ch == 114 || ch == 82 {
            promote = Some(Species::Rook);
        } else {
            return Err(ParsePMoveErr::MalformedPromote);
        }
    }
    if parts.len() > 3 {
        return Err(ParsePMoveErr::TooManyParts);
    }
    Ok(PieceMove { origin, destin, promote })
}

/// Reads a piece move from text.
pub fn parse_pmove(token: &str) -> (r: Result<PieceMove, ParsePMoveErr>)
    ensures
        r == spec_parse_pmove(token.spec_bytes()),
        r matches Ok(m) ==> m.wf(),
{
    parse_pmove_bytes(token.as_bytes())
}

/// The text `CastleQueenside`.
pub open spec fn castle_queenside_text() -> Seq<u8> {
    seq![67u8, 97, 115, 116, 108, 101, 81, 117, 101, 101, 110, 115, 105, 100, 101]
}

/// The text `CastleKingside`.
pub open spec fn castle_kingside_text() -> Seq<u8> {
    seq![67u8, 97, 115, 116, 108, 101, 75, 105, 110, 103, 115, 105, 100, 101]
}

/// The move that a token denotes.
pub open spec fn spec_parse_move(token: Seq<u8>) -> Result<AnyMove, ParsePMoveErr> {
    if token == castle_queenside_text() {
        Ok(AnyMove::Castle(Side::Queenside))
    } else if token == castle_kingside_text() {
        Ok(AnyMove::Castle(Side::Kingside))
    } else {
        match spec_parse_pmove(token) {
            Ok(m) => Ok(AnyMove::Piece(m)),
            Err(e) => Err(e),
        }
    }
}

/// Reads a move.
pub fn parse_move(token: &[u8]) -> (r: Result<AnyMove, ParsePMoveErr>)
    ensures
        r == spec_parse_move(token@),
        r matches Ok(mv) ==> mv.wf(),
{
    let queenside: [u8; 15] = [67, 97, 115, 116, 108, 101, 81, 117, 101, 101, 110, 115, 105, 100, 101];
    let kingside: [u8; 14] = [67, 97, 115, 116, 108, 101, 75, 105, 110, 103, 115, 105, 100, 101];
    proof {
        assert(queenside@ =~= castle_queenside_text());
        assert(kingside@ =~= castle_kingside_text());
    }
    if bytes_equal(token, queenside.as_slice()) {
        Ok(AnyMove::Castle(Side::Queenside))
    } else if bytes_equal(token, kingside.as_slice()) {
        Ok(AnyMove::Castle(Side::Kingside))
    } else {
        match parse_pmove_bytes(token) {
            Ok(m) => Ok(AnyMove::Piece(m)),
            Err(e) => Err(e),
        }
    }
}

/// What applying the tokens from the `i`-th on does to a position: each
/// token that is not blank must denote a move that is legal where it
/// stands, and is applied; the first that does not stops the run with its
/// error, the moves before it applied.
pub open spec fn run_tokens(p: Position, tokens: Seq<Seq<u8>>, i: int) -> (Position, Result<(), LoadGameErr>)
    decreases tokens.len() - i,
{
    if i < 0 || i >= tokens.len() {
        (p, Ok(()))
    } else {
        let token = spec_trim(tokens[i]);
        if token.len() == 0 {
            run_tokens(p, tokens, i + 1)
        } else {
            match spec_parse_move(token) {
                Err(e) => (p, Err(LoadGameErr::ParsePMove(e))),
                Ok(mv) => if legal(p, mv) {
                    run_tokens(spec_make(p, mv), tokens, i + 1)
                } else {
                    (p, Err(LoadGameErr::IllegalMove(mv)))
                },
            }
        }
    }
}

/// What applying a transcript does to a position.
pub open spec fn run_transcript(p: Position, text: Seq<u8>) -> (Position, Result<(), LoadGameErr>) {
    run_tokens(p, spec_split(text, 59), 0)
}

/// Whether a move is in a list of generated moves.
pub fn is_listed(list: &Vec<GeneratedMove>, mov: AnyMove) -> (found: bool)
    ensures
        found == moves_of(list@).contains(mov),
{
    let mut i: usize = 0;
    while i < list.len()
        invariant
            i <= list.len(),
            forall|k: int| 0 <= k < i ==> moves_of(list@)[k] != mov,
        decreases list.len() - i,
    {
        if list[i].mov.same(mov) {
            assert(moves_of(list@)[i as int] == mov);
            return true;
        }
        i += 1;
    }
    false
}

/// Applies a transcript to the game, move by move. Every move must be
/// legal where it stands; the first token that is not a legal move stops
/// the run, with the moves before it applied.
pub fn apply_gbytes(state: &mut ChessGame, text: &[u8]) -> (r: Result<(), LoadGameErr>)
    requires
        old(state).valid(),
    ensures
        final(state).valid(),
        final(state).hash.chs == old(state).hash.chs,
        (final(state).abs(), r) == run_transcript(old(state).abs(), text@),
{
    let ghost start = state.abs();
    let tokens: Vec<Vec<u8>> = split(text, 59);
    let ghost toks = spec_split(text@, 59);
    let mut i: usize = 0;
    while i < tokens.len()
        invariant
            i <= tokens.len(),
            views(tokens@) == toks,
            toks == spec_split(text@, 59),
            start == old(state).abs(),
            state.valid(),
            state.hash.chs == old(state).hash.chs,
            run_tokens(start, toks, 0) == run_tokens(state.abs(), toks, i as int),
        decreases tokens.len() - i,
    {
        let token: Vec<u8> = trim(&tokens[i]);
        assert(views(tokens@)[i as int] == tokens@[i as int]@);
        if token.len() > 0 {
            let ghost p = state.abs();
            let ghost before = *state;
            let prop_move = match parse_move(token.as_slice()) {
                Ok(mv) => mv,
                Err(e) => {
                    proof {
                        assert(run_tokens(p, toks, i as int) == (p, Err::<(), LoadGameErr>(LoadGameErr::ParsePMove(e))));
                    }
                    return Err(LoadGameErr::ParsePMove(e));
                },
            };
            let list: Vec<GeneratedMove> = legal_moves(state);
            proof {
                lemma_same_position_valid(before, *state);
            }
            let is_legal: bool = is_listed(&list, prop_move);
            if !is_legal {
                proof {
                    assert(run_tokens(p, toks, i as int) == (
                        p,
                        Err::<(), LoadGameErr>(LoadGameErr::IllegalMove(prop_move)),
                    ));
                }
                return Err(LoadGameErr::IllegalMove(prop_move));
            }
            proof {
                lemma_legal_applicable(p, prop_move);
                assert(run_tokens(p, toks, i as int) == run_tokens(spec_make(p, prop_move), toks, i + 1));
            }
            make_move(state, prop_move);
        } else {
            proof {
                assert(run_tokens(state.abs(), toks, i as int) == run_tokens(state.abs(), toks, i + 1));
            }
        }
        i += 1;
    }
    Ok(())
}

/// Applies a transcript, given as text, to the game.
pub fn apply_gstr(state: &mut ChessGame, gstr: &str) -> (r: Result<(), LoadGameErr>)
    requires
        old(state).valid(),
    ensures
        final(state).valid(),
        final(state).hash.chs == old(state).hash.chs,
        (final(state).abs(), r) == run_transcript(old(state).abs(), gstr.spec_bytes()),
{
    apply_gbytes(state, gstr.as_bytes())
}

impl std::str::FromStr for File {
    type Err = ParseFileErr;

    /// The file that the text names: one letter from `A` to `H`.
    fn from_str(s: &str) -> (r: Result<Self, Self::Err>)
        ensures
            r == spec_parse_file(s.spec_bytes()),
    {
        parse_file(s.as_bytes())
    }
}

impl std::str::FromStr for Rank {
    type Err = ParseRankErr;

    /// The rank that the text names: a number from 1 to 8.
    fn from_str(s: &str) -> (r: Result<Self, Self::Err>)
        ensures
            r == spec_parse_rank(s.spec_bytes()),
            r matches Ok(rank) ==> rank.wf(),
    {
        parse_rank(s.as_bytes())
    }
}

impl std::str::FromStr for StandardCoordinate {
    type Err = ParseStandardCoordinateError;

    /// The tile that the text names: a file's letter, then a rank's digit.
    fn from_str(s: &str) -> (r: Result<Self, Self::Err>)
        ensures
            r == spec_parse_square(s.spec_bytes()),
            r matches Ok(sq) ==> sq.wf(),
    {
        parse_square(s.as_bytes())
    }
}

/// The letter of a file.
pub open spec fn spec_file_text(file: File) -> Seq<char> {
    match file {
        File::A => "A"@,
        File::B => "B"@,
        File::C => "C"@,
        File::D => "D"@,
        File::E => "E"@,
        File::F => "F"@,
        File::G => "G"@,
        File::H => "H"@,
    }
}

/// The digit of the rank with index `r`.
pub open spec fn spec_rank_text(r: int) -> Seq<char> {
    if r == 0 {
        "1"@
    } else if r == 1 {
        "2"@
    } else if r == 2 {
        "3"@
    } else if r == 3 {
        "4"@
    } else if r == 4 {
        "5"@
    } else if r == 5 {
        "6"@
    } else if r == 6 {
        "7"@
    } else {
        "8"@
    }
}

/// The name of a tile: the letter of its file, then the digit of its
/// rank.
pub open spec fn spec_square_text(sq: StandardCoordinate) -> Seq<char> {
    spec_file_text(File::spec_from_index(crate::grid::file_of(sq.index as int))) + spec_rank_text(
        crate::grid::rank_of(sq.index as int),
    )
}

/// The letter that a promotion is written with.
pub open spec fn spec_promote_text(sp: Species) -> Seq<char> {
    match sp {
        Species::Rook => "r"@,
        Species::Knight => "k"@,
        Species::Bishop => "b"@,
        _ => "q"@,
    }
}

/// The text of a move in a transcript, with the semicolon that ends it.
pub open spec fn spec_move_text(mov: AnyMove) -> Seq<char> {
    match mov {
        AnyMove::Castle(Side::Queenside) => "CastleQueenside;"@,
        AnyMove::Castle(Side::Kingside) => "CastleKingside;"@,
        AnyMove::Piece(m) => {
            let head = spec_square_text(m.origin) + ":"@ + spec_square_text(m.destin);
            match m.promote {
                Some(sp) => head + ":"@ + spec_promote_text(sp) + ";"@,
                None => head + ";"@,
            }
        },
    }
}

/// The letter of a file.
pub fn file_text(file: File) -> (text: &'static str)
    ensures
        text@ == spec_file_text(file),
{
    match file {
        File::A => "A",
        File::B => "B",
        File::C => "C",
        File::D => "D",
        File::E => "E",
        File::F => "F",
        File::G => "G",
        File::H => "H",
    }
}

/// The digit of a rank.
pub fn rank_text(rank: Rank) -> (text: &'static str)
    requires
        rank.wf(),
    ensures
        text@ == spec_rank_text(rank.index as int),
{
    let r: u8 = rank.index();
    if r == 0 {
        "1"
    } else if r == 1 {
        "2"
    } else if r == 2 {
        "3"
    } else if r == 3 {
        "4"
    } else if r == 4 {
        "5"
    } else if r == 5 {
        "6"
    } else if r == 6 {
        "7"
    } else {
        "8"
    }
}

/// The name of a tile, as in `E4`.
pub fn square_text(sq: StandardCoordinate) -> (text: String)
    requires
        sq.wf(),
    ensures
        text@ == spec_square_text(sq),
{
    let mut text: String = String::from_str(file_text(sq.file()));
    text.append(rank_text(sq.rank()));
    text
}

/// The text of a move in a transcript, with the semicolon that ends it,
/// as in `E2:E4;`, `E7:E8:q;` and `CastleKingside;`. A promotion is to
/// rook, knight, bishop or queen.
pub fn move_text(mov: AnyMove) -> (text: String)
    requires
        mov.wf(),
        mov matches AnyMove::Piece(m) ==> (m.promote matches Some(sp) ==> sp != Species::King && sp != Species::Pawn),
    ensures
        text@ == spec_move_text(mov),
{
    match mov {
        AnyMove::Castle(Side::Queenside) => String::from_str("CastleQueenside;"),
        AnyMove::Castle(Side::Kingside) => String::from_str("CastleKingside;"),
        AnyMove::Piece(m) => {
            let mut text: String = square_text(m.origin);
            text.append(":");
            let destin: String = square_text(m.destin);
            text.append(destin.as_str());
            match m.promote {
                Some(sp) => {
                    text.append(":");
                    let letter: &'static str = match sp {
                        Species::Rook => "r",
                        Species::Knight => "k",
                        Species::Bishop => "b",
                        _ => "q",
                    };
                    text.append(letter);
                },
                None => {},
            }
            text.append(";");
            text
        },
    }
}

} // verus!
