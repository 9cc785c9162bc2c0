//! One Ataxx position as a fixed 32-byte training record: three 49-bit
//! occupancy planes over a 7x7 board, a score, a game result, the side
//! to move and two move counters, with a lossless text codec.

use vstd::prelude::*;
use vstd::string::StringSliceAdditionalSpecFns;
use crate::text::{
    spec_dec, spec_dec_i16, spec_parse_i16, spec_parse_u16, spec_parse_u8, spec_split,
    spec_tokens, spec_trim, split_bytes, ws_tokens,
};

verus! {

/// The 49 playable cells of the board, one bit each.
pub const BOARD_MASK: u64 = 0x1_FFFF_FFFF_FFFF;

#[derive(Clone, Copy, Debug, PartialEq, Eq, Structural)]
pub struct AtaxxBoard {
    pub bb0: u64,
    pub bb1: u64,
    pub bb2: u64,
    pub score: i16,
    pub result: u8,
    pub stm: bool,
    pub fullm: u16,
    pub halfm: u8,
    pub extra: u8,
}

#[derive(Clone, Copy, Debug, PartialEq, Eq, Structural)]
pub enum ParseError {
    /// A placement character is not a piece letter or an empty-run digit.
    UnrecognisedChar,
    /// The placement addresses a cell beyond the 49 board cells.
    TooManyCells,
    /// The score is not a valid signed 16-bit integer.
    BadScore,
    /// The result token matches no recognised variant.
    BadResult,
    /// Fewer than three `|`-separated fields, or fewer than two words
    /// before the first `|`.
    Malformed,
}

/// Whether bit `i` of `x` is set.
pub open spec fn bit(x: u64, i: int) -> bool {
    x & (1u64 << (i as u64)) != 0
}

impl AtaxxBoard {
    /// The occupancy plane `i`: 0 the mover's pieces, 1 the opponent's,
    /// 2 the blocked cells.
    pub open spec fn plane(self, i: int) -> u64 {
        if i == 0 {
            self.bb0
        } else if i == 1 {
            self.bb1
        } else {
            self.bb2
        }
    }

    /// A well-formed record: plane bits only on the 49 cells, no cell
    /// claimed by two planes, a result code of at most 2, and a zero
    /// reserved byte.
    pub open spec fn wf(self) -> bool {
        &&& self.bb0 & BOARD_MASK == self.bb0
        &&& self.bb1 & BOARD_MASK == self.bb1
        &&& self.bb2 & BOARD_MASK == self.bb2
        &&& self.bb0 & self.bb1 == 0
        &&& self.bb0 & self.bb2 == 0
        &&& self.bb1 & self.bb2 == 0
        &&& self.result <= 2
        &&& self.extra == 0
    }

    pub open spec fn spec_stm(self) -> bool {
        self.stm
    }

    pub open spec fn spec_score(self) -> i16 {
        self.score
    }

    pub open spec fn spec_result(self) -> u8 {
        self.result
    }

    pub open spec fn spec_halfm(self) -> u8 {
        self.halfm
    }

    pub open spec fn spec_fullm(self) -> u16 {
        self.fullm
    }

    /// The side to move: 0 for the first side, 1 for the second.
    pub fn stm(&self) -> (r: usize)
        ensures
            r == if self.spec_stm() { 1int } else { 0int },
    {
        if self.stm {
            1
        } else {
            0
        }
    }

    /// The half-move counter.
    pub fn halfm(&self) -> (r: u8)
        ensures
            r == self.spec_halfm(),
    {
        self.halfm
    }

    /// The full-move counter.
    pub fn fullm(&self) -> (r: u16)
        ensures
            r == self.spec_fullm(),
    {
        self.fullm
    }

    /// The evaluation score, from the mover's point of view.
    pub fn score(&self) -> (r: i16)
        ensures
            r == self.spec_score(),
    {
        self.score
    }

    /// The game result as an index: 0 loss, 1 draw, 2 win for the mover.
    pub fn result_idx(&self) -> (r: usize)
        ensures
            r == self.spec_result() as int,
    {
        self.result as usize
    }

    /// Twice the game result fraction: 0, 1 or 2 meaning 0.0, 0.5, 1.0.
    pub fn result_doubled(&self) -> (r: u8)
        ensures
            r == self.spec_result(),
    {
        self.result
    }
}

/// Negation of a score; the one value without a negative, `i16::MIN`,
/// stays itself, as wrapping negation leaves it.
pub open spec fn spec_neg16(x: i16) -> i16 {
    if x == -32768 {
        x
    } else {
        (-x) as i16
    }
}

pub proof fn lemma_neg16_involution(x: i16)
    ensures
        spec_neg16(spec_neg16(x)) == x,
{
}

/// The mirrored record: planes 0 and 1 swapped, the score negated and
/// the result reversed, as seen from the other side.
pub open spec fn spec_flip(b: AtaxxBoard) -> AtaxxBoard
    recommends
        b.result <= 2,
{
    AtaxxBoard {
        bb0: b.bb1,
        bb1: b.bb0,
        score: spec_neg16(b.score),
        result: (2 - b.result) as u8,
        ..b
    }
}

/// Canonical form: plane 0 always holds the side to move, so a record
/// whose encoded mover is the second side is flipped.
pub open spec fn spec_canon(b: AtaxxBoard) -> AtaxxBoard
    recommends
        b.result <= 2,
{
    if b.stm {
        spec_flip(b)
    } else {
        b
    }
}

/// Reading a record whose encoded mover is the first side changes
/// nothing against the naive, uncanonicalized decode.
pub proof fn lemma_canon_first_side(b: AtaxxBoard)
    requires
        !b.spec_stm(),
    ensures
        spec_canon(b) == b,
{
}

/// Flipping twice restores the record.
pub proof fn lemma_flip_involution(b: AtaxxBoard)
    requires
        b.result <= 2,
    ensures
        spec_flip(spec_flip(b)) == b,
{
    lemma_neg16_involution(b.score);
}

/// The recognised result tokens: win 1.0, draw 0.5, loss 0.0, each in
/// plain, bracketed or fractional form.
pub open spec fn spec_result_code(t: Seq<u8>) -> Option<u8> {
    if t == seq![49u8, 46u8, 48u8] || t == seq![91u8, 49u8, 46u8, 48u8, 93u8] || t == seq![49u8] {
        Some(2u8)
    } else if t == seq![48u8, 46u8, 53u8] || t == seq![91u8, 48u8, 46u8, 53u8, 93u8]
        || t == seq![49u8, 47u8, 50u8] {
        Some(1u8)
    } else if t == seq![48u8, 46u8, 48u8] || t == seq![91u8, 48u8, 46u8, 48u8, 93u8]
        || t == seq![48u8] {
        Some(0u8)
    } else {
        None
    }
}

/// Compares two byte strings.
#[verifier::loop_isolation(false)]
pub fn bytes_eq(a: &[u8], b: &[u8]) -> (r: bool)
    ensures
        r == (a@ == b@),
{
    if a.len() != b.len() {
        proof {
            assert(a@ != b@);
        }
        return false;
    }
    let n = a.len();
    let mut i: usize = 0;
    while i < n
        invariant
            0 <= i <= n,
            forall|j: int| 0 <= j < i ==> a@[j] == b@[j],
        decreases n - i,
    {
        if a[i] != b[i] {
            return false;
        }
        i = i + 1;
    }
    proof {
        assert(a@ =~= b@);
    }
    true
}

/// Reads a result token.
pub fn result_code(t: &[u8]) -> (r: Option<u8>)
    ensures
        r == spec_result_code(t@),
{
    let n = t.len();
    let r2 = if n == 3 && t[0] == 49 && t[1] == 46 && t[2] == 48 {
        true
    } else if n == 5 && t[0] == 91 && t[1] == 49 && t[2] == 46 && t[3] == 48 && t[4] == 93 {
        true
    } else {
        n == 1 && t[0] == 49
    };
    if r2 {
        proof {
            if n == 3 {
                assert(t@ =~= seq![49u8, 46u8, 48u8]);
            } else if n == 5 {
                assert(t@ =~= seq![91u8, 49u8, 46u8, 48u8, 93u8]);
            } else {
                assert(t@ =~= seq![49u8]);
            }
        }
        return Some(2);
    }
    let r1 = if n == 3 && t[0] == 48 && t[1] == 46 && t[2] == 53 {
        true
    } else if n == 5 && t[0] == 91 && t[1] == 48 && t[2] == 46 && t[3] == 53 && t[4] == 93 {
        true
    } else {
        n == 3 && t[0] == 49 && t[1] == 47 && t[2] == 50
    };
    if r1 {
        proof {
            if t@[0] == 48 && n == 3 {
                assert(t@ =~= seq![48u8, 46u8, 53u8]);
            } else if n == 5 {
                assert(t@ =~= seq![91u8, 48u8, 46u8, 53u8, 93u8]);
            } else {
                assert(t@ =~= seq![49u8, 47u8, 50u8]);
            }
        }
        return Some(1);
    }
    let r0 = if n == 3 && t[0] == 48 && t[1] == 46 && t[2] == 48 {
        true
    } else if n == 5 && t[0] == 91 && t[1] == 48 && t[2] == 46 && t[3] == 48 && t[4] == 93 {
        true
    } else {
        n == 1 && t[0] == 48
    };
    if r0 {
        proof {
            if n == 3 {
                assert(t@ =~= seq![48u8, 46u8, 48u8]);
            } else if n == 5 {
                assert(t@ =~= seq![91u8, 48u8, 46u8, 48u8, 93u8]);
            } else {
                assert(t@ =~= seq![48u8]);
            }
        }
        return Some(0);
    }
    None
}

} // verus!

verus! {

/// The `n` lowest bits.
pub open spec fn mask_below(n: int) -> u64
    recommends
        0 <= n <= 63,
{
    ((1u64 << (n as u64)) - 1) as u64
}

/// Reads one placement row, continuing at cell `idx` with the plane
/// bits gathered so far: a piece letter claims the next cell for its
/// plane, a digit 1-7 skips that many empty cells, anything else is
/// refused, as is any step past the 49th cell.
pub open spec fn spec_scan_row(
    row: Seq<u8>,
    idx: int,
    b0: u64,
    b1: u64,
    b2: u64,
) -> Result<(int, u64, u64, u64), ParseError>
    decreases row.len(),
{
    if row.len() == 0 {
        Ok((idx, b0, b1, b2))
    } else {
        let c = row[0];
        if c == 114 {
            if idx < 49 {
                spec_scan_row(row.skip(1), idx + 1, b0 | (1u64 << (idx as u64)), b1, b2)
            } else {
                Err(ParseError::TooManyCells)
            }
        } else if c == 98 {
            if idx < 49 {
                spec_scan_row(row.skip(1), idx + 1, b0, b1 | (1u64 << (idx as u64)), b2)
            } else {
                Err(ParseError::TooManyCells)
            }
        } else if c == 45 {
            if idx < 49 {
                spec_scan_row(row.skip(1), idx + 1, b0, b1, b2 | (1u64 << (idx as u64)))
            } else {
                Err(ParseError::TooManyCells)
            }
        } else if 49 <= c <= 55 {
            if idx + (c - 48) <= 49 {
                spec_scan_row(row.skip(1), idx + (c - 48), b0, b1, b2)
            } else {
                Err(ParseError::TooManyCells)
            }
        } else {
            Err(ParseError::UnrecognisedChar)
        }
    }
}

/// Reads the placement rows from the last to the first, so that the
/// bottom rank fills the low cells.
pub open spec fn spec_scan_rows(
    rows: Seq<Seq<u8>>,
    idx: int,
    b0: u64,
    b1: u64,
    b2: u64,
) -> Result<(int, u64, u64, u64), ParseError>
    decreases rows.len(),
{
    if rows.len() == 0 {
        Ok((idx, b0, b1, b2))
    } else {
        match spec_scan_row(rows.last(), idx, b0, b1, b2) {
            Ok(st) => spec_scan_rows(rows.drop_last(), st.0, st.1, st.2, st.3),
            Err(e) => Err(e),
        }
    }
}

/// Reads one placement row.
#[verifier::loop_isolation(false)]
fn scan_row(row: &Vec<u8>, idx0: usize, a0: u64, a1: u64, a2: u64) -> (r: Result<
    (usize, u64, u64, u64),
    ParseError,
>)
    requires
        idx0 <= 49,
    ensures
        match r {
            Ok(st) => {
                &&& spec_scan_row(row@, idx0 as int, a0, a1, a2) == Ok::<_, ParseError>(
                    (st.0 as int, st.1, st.2, st.3),
                )
                &&& st.0 <= 49
            },
            Err(e) => spec_scan_row(row@, idx0 as int, a0, a1, a2) == Err::<(int, u64, u64, u64), _>(e),
        },
{
    let n = row.len();
    let mut idx: usize = idx0;
    let mut b0: u64 = a0;
    let mut b1: u64 = a1;
    let mut b2: u64 = a2;
    let mut j: usize = 0;
    proof {
        assert(row@.skip(0) =~= row@);
    }
    while j < n
        invariant
            0 <= j <= n,
            idx <= 49,
            spec_scan_row(row@, idx0 as int, a0, a1, a2) == spec_scan_row(
                row@.skip(j as int),
                idx as int,
                b0,
                b1,
                b2,
            ),
        decreases n - j,
    {
        let ghost rest = row@.skip(j as int);
        proof {
            assert(rest[0] == row@[j as int]);
            assert(rest.skip(1) =~= row@.skip(j + 1));
        }
        let c = row[j];
        if c == 114 {
            if idx >= 49 {
                return Err(ParseError::TooManyCells);
            }
            b0 = b0 | (1u64 << (idx as u64));
            idx = idx + 1;
        } else if c == 98 {
            if idx >= 49 {
                return Err(ParseError::TooManyCells);
            }
            b1 = b1 | (1u64 << (idx as u64));
            idx = idx + 1;
        } else if c == 45 {
            if idx >= 49 {
                return Err(ParseError::TooManyCells);
            }
            b2 = b2 | (1u64 << (idx as u64));
            idx = idx + 1;
        } else if 49 <= c && c <= 55 {
            let d = (c - 48) as usize;
            if idx + d > 49 {
                return Err(ParseError::TooManyCells);
            }
            idx = idx + d;
        } else {
            return Err(ParseError::UnrecognisedChar);
        }
        j = j + 1;
    }
    proof {
        assert(row@.skip(n as int) =~= Seq::<u8>::empty());
    }
    Ok((idx, b0, b1, b2))
}

/// Reads all placement rows, bottom row of text first.
#[verifier::loop_isolation(false)]
fn scan_rows(rows: &Vec<Vec<u8>>) -> (r: Result<(usize, u64, u64, u64), ParseError>)
    ensures
        match r {
            Ok(st) => {
                &&& spec_scan_rows(rows.deep_view(), 0, 0, 0, 0) == Ok::<_, ParseError>(
                    (st.0 as int, st.1, st.2, st.3),
                )
                &&& st.0 <= 49
            },
            Err(e) => spec_scan_rows(rows.deep_view(), 0, 0, 0, 0) == Err::<(int, u64, u64, u64), _>(
                e,
            ),
        },
{
    let ghost dv = rows.deep_view();
    let mut k: usize = rows.len();
    let mut idx: usize = 0;
    let mut b0: u64 = 0;
    let mut b1: u64 = 0;
    let mut b2: u64 = 0;
    proof {
        assert(dv.len() == rows@.len());
        assert(dv.take(k as int) =~~= dv);
    }
    while k > 0
        invariant
            0 <= k <= rows@.len(),
            idx <= 49,
            dv == rows.deep_view(),
            spec_scan_rows(dv, 0, 0, 0, 0) == spec_scan_rows(
                dv.take(k as int),
                idx as int,
                b0,
                b1,
                b2,
            ),
        decreases k,
    {
        let ghost part = dv.take(k as int);
        proof {
            assert(part.last() =~= dv[k - 1]);
            assert(part.drop_last() =~= dv.take(k - 1));
            assert(rows@[k - 1].deep_view() == dv[k - 1]);
            assert(rows@[k - 1].deep_view() =~= rows@[k - 1]@);
        }
        let row = &rows[k - 1];
        match scan_row(row, idx, b0, b1, b2) {
            Ok(st) => {
                idx = st.0;
                b0 = st.1;
                b1 = st.2;
                b2 = st.3;
            },
            Err(e) => {
                return Err(e);
            },
        }
        k = k - 1;
    }
    proof {
        assert(dv.take(0) =~~= Seq::<Seq<u8>>::empty());
    }
    Ok((idx, b0, b1, b2))
}

} // verus!

verus! {

/// What parsing a text record means, end to end: split on `|` into
/// placement-and-counters, score and result; split the first field into
/// words; read the placement rows bottom-up; then canonicalize so that
/// plane 0 holds the side to move.  Counters fall back to 0 and 1 when
/// absent or unreadable, as the notation allows.
pub open spec fn spec_from_str(s: Seq<u8>) -> Result<AtaxxBoard, ParseError> {
    let parts = spec_split(s, 124);
    if parts.len() < 3 {
        Err(ParseError::Malformed)
    } else {
        let toks = spec_tokens(parts[0]);
        if toks.len() < 2 {
            Err(ParseError::Malformed)
        } else {
            let stm = toks[1] == seq![98u8];
            let halfm = if toks.len() >= 3 {
                match spec_parse_u8(toks[2]) {
                    Some(v) => v,
                    None => 0u8,
                }
            } else {
                0u8
            };
            let fullm = if toks.len() >= 4 {
                match spec_parse_u16(toks[3]) {
                    Some(v) => v,
                    None => 1u16,
                }
            } else {
                1u16
            };
            match spec_scan_rows(spec_split(toks[0], 47), 0, 0, 0, 0) {
                Err(e) => Err(e),
                Ok(st) => match spec_parse_i16(spec_trim(parts[1])) {
                    None => Err(ParseError::BadScore),
                    Some(score) => match spec_result_code(spec_trim(parts[2])) {
                        None => Err(ParseError::BadResult),
                        Some(result) => Ok(
                            spec_canon(
                                AtaxxBoard {
                                    bb0: st.1,
                                    bb1: st.2,
                                    bb2: st.3,
                                    score: score,
                                    result: result,
                                    stm: stm,
                                    fullm: fullm,
                                    halfm: halfm,
                                    extra: 0,
                                },
                            ),
                        ),
                    },
                },
            }
        }
    }
}

/// Negates a score, wrapping on the one value without a negative.
pub fn neg16(x: i16) -> (r: i16)
    ensures
        r == spec_neg16(x),
{
    if x == i16::MIN {
        x
    } else {
        -x
    }
}

/// Applies the canonicalization swap when the encoded side to move is
/// the second side.
pub fn canonize(b: AtaxxBoard) -> (r: AtaxxBoard)
    requires
        b.result <= 2,
    ensures
        r == spec_canon(b),
{
    if b.stm {
        AtaxxBoard {
            bb0: b.bb1,
            bb1: b.bb0,
            score: neg16(b.score),
            result: 2 - b.result,
            ..b
        }
    } else {
        b
    }
}

impl AtaxxBoard {
    /// Parses the text notation
    /// `"<placement> <side> <halfmove> <fullmove> | <score> | <result>"`.
    pub fn from_str(s: &str) -> (r: Result<AtaxxBoard, ParseError>)
        ensures
            r == spec_from_str(s.spec_bytes()),
            r matches Ok(b) ==> b.wf(),
    {
        proof {
            crate::laws::lemma_parse_wf(s.spec_bytes());
        }
        let bytes = s.as_bytes();
        let parts = split_bytes(bytes, 124);
        let ghost sparts = spec_split(s.spec_bytes(), 124);
        proof {
            assert(parts.deep_view().len() == parts@.len());
        }
        if parts.len() < 3 {
            return Err(ParseError::Malformed);
        }
        proof {
            assert(parts@[0].deep_view() =~= parts@[0]@);
            assert(parts@[0]@ == sparts[0]);
            assert(parts@[1].deep_view() =~= parts@[1]@);
            assert(parts@[1]@ == sparts[1]);
            assert(parts@[2].deep_view() =~= parts@[2]@);
            assert(parts@[2]@ == sparts[2]);
        }
        let toks = ws_tokens(parts[0].as_slice());
        let ghost stoks = spec_tokens(sparts[0]);
        proof {
            assert(toks.deep_view().len() == toks@.len());
        }
        if toks.len() < 2 {
            return Err(ParseError::Malformed);
        }
        proof {
            assert(toks@[0].deep_view() =~= toks@[0]@);
            assert(toks@[0]@ == stoks[0]);
            assert(toks@[1].deep_view() =~= toks@[1]@);
            assert(toks@[1]@ == stoks[1]);
        }
        let one_b: [u8; 1] = [98];
        let stm = bytes_eq(toks[1].as_slice(), one_b.as_slice());
        proof {
            assert(one_b@ =~= seq![98u8]);
        }
        let halfm: u8 = if toks.len() >= 3 {
            proof {
                assert(toks@[2].deep_view() =~= toks@[2]@);
                assert(toks@[2]@ == stoks[2]);
            }
            match crate::text::parse_u8(toks[2].as_slice()) {
                Some(v) => v,
                None => 0,
            }
        } else {
            0
        };
        let fullm: u16 = if toks.len() >= 4 {
            proof {
                assert(toks@[3].deep_view() =~= toks@[3]@);
                assert(toks@[3]@ == stoks[3]);
            }
            match crate::text::parse_u16(toks[3].as_slice()) {
                Some(v) => v,
                None => 1,
            }
        } else {
            1
        };
        let rows = split_bytes(toks[0].as_slice(), 47);
        let st = match scan_rows(&rows) {
            Ok(st) => st,
            Err(e) => {
                return Err(e);
            },
        };
        let score_txt = crate::text::trim(parts[1].as_slice());
        let score = match crate::text::parse_i16(score_txt.as_slice()) {
            Some(v) => v,
            None => {
                return Err(ParseError::BadScore);
            },
        };
        let result_txt = crate::text::trim(parts[2].as_slice());
        let result = match result_code(result_txt.as_slice()) {
            Some(v) => v,
            None => {
                return Err(ParseError::BadResult);
            },
        };
        assert(result <= 2);
        let raw = AtaxxBoard {
            bb0: st.1,
            bb1: st.2,
            bb2: st.3,
            score: score,
            result: result,
            stm: stm,
            fullm: fullm,
            halfm: halfm,
            extra: 0,
        };
        Ok(canonize(raw))
    }
}

} // verus!

verus! {

/// The state of one cell: 0 empty, else the plane number plus one.
pub open spec fn spec_cell(b0: u64, b1: u64, b2: u64, sq: int) -> int {
    if bit(b0, sq) {
        1
    } else if bit(b1, sq) {
        2
    } else if bit(b2, sq) {
        3
    } else {
        0
    }
}

/// The letter written for an occupied cell.
pub open spec fn spec_letter(pc: int) -> u8 {
    if pc == 1 {
        114u8
    } else if pc == 2 {
        98u8
    } else {
        45u8
    }
}

/// The run-length text of rank `rank` from cell `j` on, with `e` empty
/// cells pending: digits stand for runs of empty cells, letters for
/// occupied ones.
pub open spec fn spec_rle(b0: u64, b1: u64, b2: u64, rank: int, j: int, e: int) -> Seq<u8>
    decreases 7 - j,
{
    if j >= 7 {
        if e > 0 {
            seq![(48 + e) as u8]
        } else {
            Seq::<u8>::empty()
        }
    } else {
        let pc = spec_cell(b0, b1, b2, 7 * rank + j);
        if pc == 0 {
            spec_rle(b0, b1, b2, rank, j + 1, e + 1)
        } else {
            (if e > 0 {
                seq![(48 + e) as u8]
            } else {
                Seq::<u8>::empty()
            }) + seq![spec_letter(pc)] + spec_rle(b0, b1, b2, rank, j + 1, 0)
        }
    }
}

/// The placement text of ranks `i` down to 0, separated by `/`.
pub open spec fn spec_ranks(b0: u64, b1: u64, b2: u64, i: int) -> Seq<u8>
    decreases i,
{
    if i <= 0 {
        spec_rle(b0, b1, b2, 0, 0, 0)
    } else {
        spec_rle(b0, b1, b2, i, 0, 0) + seq![47u8] + spec_ranks(b0, b1, b2, i - 1)
    }
}

/// The text written for a result code.
pub open spec fn spec_result_text(r: u8) -> Seq<u8> {
    if r == 2 {
        seq![49u8, 46u8, 48u8]
    } else if r == 1 {
        seq![48u8, 46u8, 53u8]
    } else {
        seq![48u8, 46u8, 48u8]
    }
}

/// What rendering a record means: the canonicalization swap is undone
/// for the second side, then placement, side letter, counters, score
/// and result are written with single spaces and ` | ` separators.
pub open spec fn spec_render(b: AtaxxBoard) -> Seq<u8> {
    let d = spec_canon(b);
    let letter: u8 = if b.stm {
        98u8
    } else {
        114u8
    };
    spec_ranks(d.bb0, d.bb1, d.bb2, 6) + seq![32u8, letter, 32u8] + spec_dec(b.halfm as nat)
        + seq![32u8] + spec_dec(b.fullm as nat) + seq![32u8, 124u8, 32u8] + spec_dec_i16(d.score)
        + seq![32u8, 124u8, 32u8] + spec_result_text(d.result)
}

/// Renders the placement text of an already de-canonicalized record.
#[verifier::loop_isolation(false)]
#[verifier::rlimit(100)]
fn render_placement(d: &AtaxxBoard) -> (out: Vec<u8>)
    ensures
        out@ == spec_ranks(d.bb0, d.bb1, d.bb2, 6),
{
    let mut out: Vec<u8> = Vec::new();
    let mut i: usize = 7;
    while i > 0
        invariant
            0 <= i <= 7,
            i > 0 ==> spec_ranks(d.bb0, d.bb1, d.bb2, 6) =~= out@ + spec_ranks(
                d.bb0,
                d.bb1,
                d.bb2,
                i - 1,
            ),
            i == 0 ==> out@ =~= spec_ranks(d.bb0, d.bb1, d.bb2, 6),
        decreases i,
    {
        let rank = i - 1;
        let ghost out_rank = out@;
        proof {
            assert(out@.skip(out_rank.len() as int) =~= Seq::<u8>::empty());
        }
        let mut e: usize = 0;
        let mut j: usize = 0;
        while j < 7
            invariant
                0 <= j <= 7,
                0 <= e <= j,
                rank == i - 1 < 7,
                out_rank.len() <= out@.len(),
                spec_rle(d.bb0, d.bb1, d.bb2, rank as int, 0, 0) =~= out@.skip(
                    out_rank.len() as int,
                ) + spec_rle(d.bb0, d.bb1, d.bb2, rank as int, j as int, e as int),
                out@.take(out_rank.len() as int) =~= out_rank,
            decreases 7 - j,
        {
            let ghost e0 = e as int;
            let ghost prev = out@;
            let sq = 7 * rank + j;
            let m = 1u64 << (sq as u64);
            let pc: usize = if d.bb0 & m != 0 {
                1
            } else if d.bb1 & m != 0 {
                2
            } else if d.bb2 & m != 0 {
                3
            } else {
                0
            };
            proof {
                assert(pc == spec_cell(d.bb0, d.bb1, d.bb2, 7 * (rank as int) + j));
            }
            if pc == 0 {
                e = e + 1;
            } else {
                let ghost epart: Seq<u8> = if e0 > 0 {
                    seq![(48 + e0) as u8]
                } else {
                    Seq::<u8>::empty()
                };
                if e > 0 {
                    out.push(48 + e as u8);
                    e = 0;
                }
                if pc == 1 {
                    out.push(114);
                } else if pc == 2 {
                    out.push(98);
                } else {
                    out.push(45);
                }
                proof {
                    assert(out@ =~= prev + epart + seq![spec_letter(pc as int)]);
                    assert(out@.skip(out_rank.len() as int) =~= prev.skip(
                        out_rank.len() as int,
                    ) + epart + seq![spec_letter(pc as int)]);
                    assert(spec_rle(d.bb0, d.bb1, d.bb2, rank as int, j as int, e0) == epart
                        + seq![spec_letter(pc as int)] + spec_rle(
                        d.bb0,
                        d.bb1,
                        d.bb2,
                        rank as int,
                        j + 1,
                        0,
                    ));
                    assert(out@.take(out_rank.len() as int) =~= out_rank);
                }
            }
            j = j + 1;
        }
        let ghost prev = out@;
        if e > 0 {
            out.push(48 + e as u8);
        }
        proof {
            assert(spec_rle(d.bb0, d.bb1, d.bb2, rank as int, 7, e as int) =~= out@.skip(
                prev.len() as int,
            ));
            assert(out@.skip(out_rank.len() as int) =~= prev.skip(out_rank.len() as int)
                + out@.skip(prev.len() as int));
            assert(out@.skip(out_rank.len() as int) =~= spec_rle(
                d.bb0,
                d.bb1,
                d.bb2,
                rank as int,
                0,
                0,
            ));
        }
        let ghost whole_rank = out@;
        if rank > 0 {
            out.push(47);
        }
        i = i - 1;
        proof {
            if i > 0 {
                assert(out@ =~= out_rank + spec_rle(d.bb0, d.bb1, d.bb2, i as int, 0, 0)
                    + seq![47u8]);
                assert(spec_ranks(d.bb0, d.bb1, d.bb2, i as int) =~= spec_rle(
                    d.bb0,
                    d.bb1,
                    d.bb2,
                    i as int,
                    0,
                    0,
                ) + seq![47u8] + spec_ranks(d.bb0, d.bb1, d.bb2, i - 1));
                assert(spec_ranks(d.bb0, d.bb1, d.bb2, 6) =~= out@ + spec_ranks(
                    d.bb0,
                    d.bb1,
                    d.bb2,
                    i - 1,
                ));
            } else {
                assert(out@ =~= out_rank + spec_rle(d.bb0, d.bb1, d.bb2, 0, 0, 0));
                assert(spec_ranks(d.bb0, d.bb1, d.bb2, 0) =~= spec_rle(
                    d.bb0,
                    d.bb1,
                    d.bb2,
                    0,
                    0,
                    0,
                ));
                assert(out@ =~= spec_ranks(d.bb0, d.bb1, d.bb2, 6));
            }
        }
    }
    out
}

impl AtaxxBoard {
    /// Renders the record to its text notation.
    #[verifier::loop_isolation(false)]
    pub fn render_bytes(&self) -> (out: Vec<u8>)
        requires
            self.wf(),
        ensures
            out@ == spec_render(*self),
    {
        let d = canonize(*self);
        let mut out = render_placement(&d);
        let ghost q0 = spec_ranks(d.bb0, d.bb1, d.bb2, 6);
        let letter: u8 = if self.stm {
            98
        } else {
            114
        };
        out.push(32);
        out.push(letter);
        out.push(32);
        let ghost q1 = q0 + seq![32u8, letter, 32u8];
        proof {
            assert(out@ =~= q1);
        }
        let mut t = crate::text::dec_u16(self.halfm as u16);
        out.append(&mut t);
        out.push(32);
        let ghost q2 = q1 + spec_dec(self.halfm as nat) + seq![32u8];
        proof {
            assert(out@ =~= q2);
        }
        let mut t2 = crate::text::dec_u16(self.fullm);
        out.append(&mut t2);
        let ghost q3 = q2 + spec_dec(self.fullm as nat);
        proof {
            assert(out@ =~= q3);
        }
        out.push(32);
        out.push(124);
        out.push(32);
        let mut t3 = crate::text::dec_i16(d.score);
        out.append(&mut t3);
        let ghost q4 = q3 + seq![32u8, 124u8, 32u8] + spec_dec_i16(d.score);
        proof {
            assert(out@ =~= q4);
        }
        out.push(32);
        out.push(124);
        out.push(32);
        if d.result == 2 {
            out.push(49);
            out.push(46);
            out.push(48);
        } else if d.result == 1 {
            out.push(48);
            out.push(46);
            out.push(53);
        } else {
            out.push(48);
            out.push(46);
            out.push(48);
        }
        let ghost q5 = q4 + seq![32u8, 124u8, 32u8] + spec_result_text(d.result);
        proof {
            assert(out@ =~= q5);
            assert(spec_render(*self) =~= q5);
        }
        out
    }
}

} // verus!

verus! {

/// The features of `b` from plane `stage`, cell `cell` on: one
/// `(plane, cell)` pair per occupied cell, planes in order, low cells
/// first within a plane.
pub open spec fn spec_feats_from(b: AtaxxBoard, stage: int, cell: int) -> Seq<(u8, u8)>
    decreases 3 - stage, 49 - cell,
{
    if stage < 0 || stage >= 3 || cell < 0 {
        Seq::<(u8, u8)>::empty()
    } else if cell >= 49 {
        spec_feats_from(b, stage + 1, 0)
    } else if bit(b.plane(stage), cell) {
        seq![(stage as u8, cell as u8)] + spec_feats_from(b, stage, cell + 1)
    } else {
        spec_feats_from(b, stage, cell + 1)
    }
}

/// Every feature of `b`, in iteration order.
pub open spec fn spec_features(b: AtaxxBoard) -> Seq<(u8, u8)> {
    spec_feats_from(b, 0, 0)
}

/// A cursor over the features of one record.
pub struct AtaxxBoardIter {
    pub board: AtaxxBoard,
    pub stage: usize,
    pub cell: usize,
}

impl AtaxxBoardIter {
    /// The features not yet yielded.
    pub open spec fn remaining(self) -> Seq<(u8, u8)> {
        spec_feats_from(self.board, self.stage as int, self.cell as int)
    }

    pub open spec fn wf(self) -> bool {
        self.stage <= 3 && self.cell <= 49
    }

    /// Yields the next `(plane, cell)` feature, scanning plane 0, then
    /// 1, then 2, lowest cell first.
    #[verifier::loop_isolation(false)]
    pub fn next(&mut self) -> (r: Option<(u8, u8)>)
        requires
            old(self).wf(),
        ensures
            final(self).wf(),
            final(self).board == old(self).board,
            match r {
                None => {
                    &&& old(self).remaining() == Seq::<(u8, u8)>::empty()
                    &&& final(self).remaining() == Seq::<(u8, u8)>::empty()
                },
                Some(f) => {
                    &&& old(self).remaining().len() > 0
                    &&& f == old(self).remaining()[0]
                    &&& final(self).remaining() == old(self).remaining().skip(1)
                },
            },
    {
        loop
            invariant
                self.wf(),
                self.board == old(self).board,
                self.remaining() == old(self).remaining(),
            decreases 3 - self.stage, 49 - self.cell,
        {
            if self.stage >= 3 {
                return None;
            }
            if self.cell >= 49 {
                self.stage = self.stage + 1;
                self.cell = 0;
            } else {
                let p = if self.stage == 0 {
                    self.board.bb0
                } else if self.stage == 1 {
                    self.board.bb1
                } else {
                    self.board.bb2
                };
                proof {
                    assert(p == self.board.plane(self.stage as int));
                }
                let m = 1u64 << (self.cell as u64);
                if p & m != 0 {
                    let f = (self.stage as u8, self.cell as u8);
                    let ghost rem = self.remaining();
                    proof {
                        assert(rem == seq![f] + spec_feats_from(
                            self.board,
                            self.stage as int,
                            self.cell + 1,
                        ));
                        assert(rem[0] == f);
                        assert(rem.skip(1) =~= spec_feats_from(
                            self.board,
                            self.stage as int,
                            self.cell + 1,
                        ));
                    }
                    self.cell = self.cell + 1;
                    return Some(f);
                }
                self.cell = self.cell + 1;
            }
        }
    }
}

impl AtaxxBoard {
    /// A fresh feature cursor over this record.
    pub fn into_iter(self) -> (it: AtaxxBoardIter)
        ensures
            it.board == self,
            it.wf(),
            it.remaining() == spec_features(self),
    {
        AtaxxBoardIter { board: self, stage: 0, cell: 0 }
    }

    /// Every feature of the record, in iteration order.  The sequence
    /// is a function of the record value alone, so two iterations of
    /// equal records always agree.
    #[verifier::loop_isolation(false)]
    pub fn features(&self) -> (v: Vec<(u8, u8)>)
        ensures
            v@ == spec_features(*self),
    {
        let mut it = self.into_iter();
        let mut v: Vec<(u8, u8)> = Vec::new();
        loop
            invariant
                it.wf(),
                it.board == *self,
                spec_features(*self) =~= v@ + it.remaining(),
            decreases it.remaining().len(),
        {
            match it.next() {
                Some(f) => {
                    v.push(f);
                },
                None => {
                    return v;
                },
            }
        }
    }
}

} // verus!

verus! {

/// A byte that may stand in a placement row: a piece letter or an
/// empty-run digit.
pub open spec fn is_placement_byte(b: u8) -> bool {
    b == 45 || b == 98 || b == 114 || (49 <= b <= 55)
}

/// The run-length text of a rank holds only placement bytes, and is
/// never empty when rendered whole.
pub proof fn lemma_rle_chars(b0: u64, b1: u64, b2: u64, rank: int, j: int, e: int)
    requires
        0 <= j <= 7,
        0 <= e <= j,
    ensures
        forall|i: int|
            0 <= i < spec_rle(b0, b1, b2, rank, j, e).len() ==> is_placement_byte(
                #[trigger] spec_rle(b0, b1, b2, rank, j, e)[i],
            ),
        j < 7 || e > 0 ==> spec_rle(b0, b1, b2, rank, j, e).len() >= 1,
    decreases 7 - j,
{
    let s = spec_rle(b0, b1, b2, rank, j, e);
    if j >= 7 {
    } else {
        let pc = spec_cell(b0, b1, b2, 7 * rank + j);
        if pc == 0 {
            lemma_rle_chars(b0, b1, b2, rank, j + 1, e + 1);
        } else {
            lemma_rle_chars(b0, b1, b2, rank, j + 1, 0);
            let epart: Seq<u8> = if e > 0 {
                seq![(48 + e) as u8]
            } else {
                Seq::<u8>::empty()
            };
            let rest = spec_rle(b0, b1, b2, rank, j + 1, 0);
            assert(s == epart + seq![spec_letter(pc)] + rest);
            assert forall|i: int| 0 <= i < s.len() implies is_placement_byte(#[trigger] s[i]) by {
                if i < epart.len() {
                    assert(s[i] == epart[0]);
                } else if i == epart.len() {
                    assert(s[i] == spec_letter(pc));
                } else {
                    assert(s[i] == rest[i - epart.len() - 1]);
                }
            }
        }
    }
}

/// The placement text holds only placement bytes and rank separators,
/// and is never empty.
pub proof fn lemma_ranks_chars(b0: u64, b1: u64, b2: u64, i: int)
    requires
        0 <= i <= 6,
    ensures
        spec_ranks(b0, b1, b2, i).len() >= 1,
        forall|k: int|
            0 <= k < spec_ranks(b0, b1, b2, i).len() ==> (is_placement_byte(
                #[trigger] spec_ranks(b0, b1, b2, i)[k],
            ) || spec_ranks(b0, b1, b2, i)[k] == 47),
    decreases i,
{
    let s = spec_ranks(b0, b1, b2, i);
    if i <= 0 {
        lemma_rle_chars(b0, b1, b2, 0, 0, 0);
    } else {
        lemma_rle_chars(b0, b1, b2, i, 0, 0);
        lemma_ranks_chars(b0, b1, b2, i - 1);
        let head = spec_rle(b0, b1, b2, i, 0, 0);
        let rest = spec_ranks(b0, b1, b2, i - 1);
        assert(s == head + seq![47u8] + rest);
        assert forall|k: int|
            0 <= k < s.len() implies (is_placement_byte(#[trigger] s[k]) || s[k] == 47) by {
            if k < head.len() {
                assert(s[k] == head[k]);
            } else if k == head.len() {
                assert(s[k] == 47);
            } else {
                assert(s[k] == rest[k - head.len() - 1]);
            }
        }
    }
}

/// Every byte a record renders to is ASCII.
pub proof fn lemma_render_ascii(b: AtaxxBoard)
    ensures
        forall|i: int| 0 <= i < spec_render(b).len() ==> spec_render(b)[i] < 128,
{
    let d = spec_canon(b);
    let s = spec_render(b);
    lemma_ranks_chars(d.bb0, d.bb1, d.bb2, 6);
    crate::text::lemma_dec_digits(b.halfm as nat);
    crate::text::lemma_dec_digits(b.fullm as nat);
    crate::text::lemma_dec_i16_chars(d.score);
    let p0 = spec_ranks(d.bb0, d.bb1, d.bb2, 6);
    let letter: u8 = if b.stm {
        98u8
    } else {
        114u8
    };
    let p1 = seq![32u8, letter, 32u8];
    let p2 = spec_dec(b.halfm as nat);
    let p3 = seq![32u8];
    let p4 = spec_dec(b.fullm as nat);
    let p5 = seq![32u8, 124u8, 32u8];
    let p6 = spec_dec_i16(d.score);
    let p7 = seq![32u8, 124u8, 32u8];
    let p8 = spec_result_text(d.result);
    assert(s == p0 + p1 + p2 + p3 + p4 + p5 + p6 + p7 + p8);
    assert forall|i: int| 0 <= i < s.len() implies s[i] < 128 by {
        let b0 = p0 + p1 + p2 + p3 + p4 + p5 + p6 + p7;
        let b1 = p0 + p1 + p2 + p3 + p4 + p5 + p6;
        let b2 = p0 + p1 + p2 + p3 + p4 + p5;
        let b3 = p0 + p1 + p2 + p3 + p4;
        let b4 = p0 + p1 + p2 + p3;
        let b5 = p0 + p1 + p2;
        let b6 = p0 + p1;
        if i >= b0.len() {
            assert(s[i] == p8[i - b0.len()]);
        } else if i >= b1.len() {
            assert(s[i] == p7[i - b1.len()]);
        } else if i >= b2.len() {
            assert(s[i] == p6[i - b2.len()]);
        } else if i >= b3.len() {
            assert(s[i] == p5[i - b3.len()]);
        } else if i >= b4.len() {
            assert(s[i] == p4[i - b4.len()]);
        } else if i >= b5.len() {
            assert(s[i] == p3[i - b5.len()]);
        } else if i >= b6.len() {
            assert(s[i] == p2[i - b6.len()]);
        } else if i >= p0.len() {
            assert(s[i] == p1[i - p0.len()]);
        } else {
            assert(s[i] == p0[i]);
        }
    }
}

impl AtaxxBoard {
    /// Renders the record to its text notation, as a string.
    pub fn render(&self) -> (s: String)
        requires
            self.wf(),
        ensures
            s@ == spec_render(*self).map_values(|b: u8| b as char),
    {
        let v = self.render_bytes();
        proof {
            lemma_render_ascii(*self);
        }
        crate::text::ascii_to_string(v)
    }
}

} // verus!
