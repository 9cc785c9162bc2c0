//! The laws that tie the record codec together: a parsed record is
//! well formed, canonicalization is the identity for the first side,
//! and rendering then parsing restores any well-formed record.

use vstd::prelude::*;
use crate::ataxx::{
    bit, mask_below, spec_canon, spec_cell, spec_features, spec_from_str, spec_letter,
    spec_ranks, spec_render, spec_result_code, spec_result_text, spec_rle, spec_scan_row,
    spec_scan_rows, is_placement_byte, lemma_rle_chars, lemma_ranks_chars, AtaxxBoard,
    ParseError, BOARD_MASK,
};
use crate::format::BulletFormat;
use crate::text::{
    is_digit, is_ws, lemma_dec_digits, lemma_dec_i16_chars, lemma_parse_dec_i16,
    lemma_parse_dec_u16, lemma_parse_dec_u8, lemma_split_concat, lemma_split_no_sep,
    lemma_tokens_go_word, lemma_tokens_go_ws, lemma_trim_framed, no_byte, no_ws, spec_dec,
    spec_dec_i16, spec_parse_i16, spec_parse_u16, spec_parse_u8, spec_split, spec_tokens,
    spec_tokens_go, spec_trim,
};

verus! {

/// Nothing is below the empty mask.
proof fn lemma_mask_zero(x: u64)
    ensures
        x & mask_below(0) == 0,
{
    assert(x & vstd::prelude::sub(1u64 << 0u64, 1u64) == 0) by (bit_vector);
    assert(mask_below(0) == vstd::prelude::sub(1u64 << 0u64, 1u64));
}

/// The 49-cell mask is the mask below cell 49.
proof fn lemma_mask_board()
    ensures
        mask_below(49) == BOARD_MASK,
{
    assert(vstd::prelude::sub(1u64 << 49u64, 1u64) == 0x1_FFFF_FFFF_FFFFu64) by (bit_vector);
    assert(mask_below(49) == vstd::prelude::sub(1u64 << 49u64, 1u64));
}

/// A value with no bit at `m` keeps its low mask when the mask grows
/// past `m`.
proof fn lemma_mask_step_clear(x: u64, m: u64)
    requires
        m < 49,
        x & (1u64 << m) == 0,
    ensures
        x & mask_below(m + 1) == x & mask_below(m as int),
{
    let m1: u64 = vstd::prelude::add(m, 1u64);
    assert(m1 == m + 1);
    assert(x & (1u64 << m) == 0 && m < 49 && m1 == vstd::prelude::add(m, 1u64) ==> x
        & vstd::prelude::sub(1u64 << m1, 1u64) == x & vstd::prelude::sub(1u64 << m, 1u64))
        by (bit_vector);
    assert(mask_below(m + 1) == vstd::prelude::sub(1u64 << m1, 1u64));
    assert(mask_below(m as int) == vstd::prelude::sub(1u64 << m, 1u64));
}

/// A value with a bit at `m` gains exactly that bit when the mask
/// grows past `m`.
proof fn lemma_mask_step_set(x: u64, m: u64)
    requires
        m < 49,
        x & (1u64 << m) != 0,
    ensures
        (x & mask_below(m as int)) | (1u64 << m) == x & mask_below(m + 1),
{
    let m1: u64 = vstd::prelude::add(m, 1u64);
    assert(m1 == m + 1);
    assert(x & (1u64 << m) != 0 && m < 49 && m1 == vstd::prelude::add(m, 1u64) ==> ((x
        & vstd::prelude::sub(1u64 << m, 1u64)) | (1u64 << m)) == (x & vstd::prelude::sub(
        1u64 << m1,
        1u64,
    ))) by (bit_vector);
    assert(mask_below(m + 1) == vstd::prelude::sub(1u64 << m1, 1u64));
    assert(mask_below(m as int) == vstd::prelude::sub(1u64 << m, 1u64));
}

/// Disjoint values never claim the same bit.
proof fn lemma_disjoint_bit(x: u64, y: u64, m: u64)
    requires
        m < 49,
        x & y == 0,
        x & (1u64 << m) != 0,
    ensures
        y & (1u64 << m) == 0,
{
    assert(x & y == 0 && x & (1u64 << m) != 0 ==> y & (1u64 << m) == 0) by (bit_vector);
}

/// Scanning a concatenation scans the first part, then the second
/// from where the first left off.
proof fn lemma_scan_row_append(p: Seq<u8>, q: Seq<u8>, idx: int, b0: u64, b1: u64, b2: u64)
    ensures
        spec_scan_row(p + q, idx, b0, b1, b2) == match spec_scan_row(p, idx, b0, b1, b2) {
            Ok(st) => spec_scan_row(q, st.0, st.1, st.2, st.3),
            Err(e) => Err(e),
        },
    decreases p.len(),
{
    if p.len() == 0 {
        assert(p + q =~= q);
    } else {
        let s = p + q;
        assert(s[0] == p[0]);
        assert(s.len() > 0);
        assert(s.skip(1) =~= p.skip(1) + q);
        let c = p[0];
        if c == 114 || c == 98 || c == 45 {
            if idx < 49 {
                if c == 114 {
                    lemma_scan_row_append(p.skip(1), q, idx + 1, b0 | (1u64 << (idx as u64)), b1, b2);
                } else if c == 98 {
                    lemma_scan_row_append(p.skip(1), q, idx + 1, b0, b1 | (1u64 << (idx as u64)), b2);
                } else {
                    lemma_scan_row_append(p.skip(1), q, idx + 1, b0, b1, b2 | (1u64 << (idx as u64)));
                }
            }
        } else if 49 <= c <= 55 {
            if idx + (c - 48) <= 49 {
                lemma_scan_row_append(p.skip(1), q, idx + (c - 48), b0, b1, b2);
            }
        }
    }
}

} // verus!

verus! {

/// A run of empty cells adds nothing: the masked planes do not change
/// as the mask grows across cells no plane claims.
proof fn lemma_mask_extend(d0: u64, d1: u64, d2: u64, m: int, cnt: int)
    requires
        0 <= m,
        0 <= cnt,
        m + cnt <= 49,
        forall|t: int| 0 <= t < cnt ==> #[trigger] spec_cell(d0, d1, d2, m + t) == 0,
    ensures
        d0 & mask_below(m + cnt) == d0 & mask_below(m),
        d1 & mask_below(m + cnt) == d1 & mask_below(m),
        d2 & mask_below(m + cnt) == d2 & mask_below(m),
    decreases cnt,
{
    if cnt > 0 {
        assert(spec_cell(d0, d1, d2, m + 0) == 0);
        assert(!bit(d0, m) && !bit(d1, m) && !bit(d2, m));
        lemma_mask_step_clear(d0, m as u64);
        lemma_mask_step_clear(d1, m as u64);
        lemma_mask_step_clear(d2, m as u64);
        assert forall|t: int| 0 <= t < cnt - 1 implies #[trigger] spec_cell(
            d0,
            d1,
            d2,
            (m + 1) + t,
        ) == 0 by {
            assert(spec_cell(d0, d1, d2, m + (t + 1)) == 0);
        }
        lemma_mask_extend(d0, d1, d2, m + 1, cnt - 1);
    }
}

/// Scanning the run-length text of rank `k` from cell `j` with `e`
/// empty cells pending advances the cursor to the end of the rank and
/// fills in exactly the rank's remaining bits.
proof fn lemma_scan_rle(
    d0: u64,
    d1: u64,
    d2: u64,
    k: int,
    j: int,
    e: int,
    a0: u64,
    a1: u64,
    a2: u64,
)
    requires
        0 <= k <= 6,
        0 <= e <= j <= 7,
        d0 & BOARD_MASK == d0,
        d1 & BOARD_MASK == d1,
        d2 & BOARD_MASK == d2,
        d0 & d1 == 0,
        d0 & d2 == 0,
        d1 & d2 == 0,
        a0 == d0 & mask_below(7 * k + j - e),
        a1 == d1 & mask_below(7 * k + j - e),
        a2 == d2 & mask_below(7 * k + j - e),
        forall|t: int| j - e <= t < j ==> #[trigger] spec_cell(d0, d1, d2, 7 * k + t) == 0,
    ensures
        spec_scan_row(spec_rle(d0, d1, d2, k, j, e), 7 * k + j - e, a0, a1, a2) == Ok::<
            _,
            ParseError,
        >(
            (
                7 * k + 7,
                d0 & mask_below(7 * k + 7),
                d1 & mask_below(7 * k + 7),
                d2 & mask_below(7 * k + 7),
            ),
        ),
    decreases 7 - j,
{
    let s = spec_rle(d0, d1, d2, k, j, e);
    let idx = 7 * k + j - e;
    if j >= 7 {
        assert forall|t: int| 0 <= t < e implies #[trigger] spec_cell(d0, d1, d2, idx + t)
            == 0 by {
            assert(spec_cell(d0, d1, d2, 7 * k + (j - e + t)) == 0);
        }
        lemma_mask_extend(d0, d1, d2, idx, e);
        if e > 0 {
            let c = (48 + e) as u8;
            assert(s =~= seq![c]);
            assert(s[0] == c);
            assert(49 <= c <= 55);
            assert(c - 48 == e);
            assert(s.skip(1) =~= Seq::<u8>::empty());
            assert(idx + e == 7 * k + 7);
        } else {
            assert(s =~= Seq::<u8>::empty());
            assert(idx == 7 * k + 7);
        }
    } else {
        let sq = 7 * k + j;
        let pc = spec_cell(d0, d1, d2, sq);
        if pc == 0 {
            assert forall|t: int| (j + 1) - (e + 1) <= t < j + 1 implies #[trigger] spec_cell(
                d0,
                d1,
                d2,
                7 * k + t,
            ) == 0 by {}
            lemma_scan_rle(d0, d1, d2, k, j + 1, e + 1, a0, a1, a2);
            assert(s == spec_rle(d0, d1, d2, k, j + 1, e + 1));
            assert(7 * k + (j + 1) - (e + 1) == idx);
        } else {
            let epart: Seq<u8> = if e > 0 {
                seq![(48 + e) as u8]
            } else {
                Seq::<u8>::empty()
            };
            let letter = spec_letter(pc);
            let rest = spec_rle(d0, d1, d2, k, j + 1, 0);
            assert(s == epart + seq![letter] + rest);
            assert(s =~= epart + (seq![letter] + rest));
            // the pending empties advance the cursor without new bits
            assert forall|t: int| 0 <= t < e implies #[trigger] spec_cell(d0, d1, d2, idx + t)
                == 0 by {
                assert(spec_cell(d0, d1, d2, 7 * k + (j - e + t)) == 0);
            }
            lemma_mask_extend(d0, d1, d2, idx, e);
            lemma_scan_row_append(epart, seq![letter] + rest, idx, a0, a1, a2);
            if e > 0 {
                let c = (48 + e) as u8;
                assert(epart =~= seq![c]);
                assert(epart[0] == c);
                assert(49 <= c <= 55);
                assert(c != 114 && c != 98 && c != 45);
                assert(c - 48 == e);
                assert(idx + e <= 49);
                assert(spec_scan_row(epart, idx, a0, a1, a2) == spec_scan_row(
                    epart.skip(1),
                    idx + (c - 48),
                    a0,
                    a1,
                    a2,
                ));
                assert(epart.skip(1) =~= Seq::<u8>::empty());
                assert(spec_scan_row(Seq::<u8>::empty(), idx + e, a0, a1, a2) == Ok::<
                    _,
                    ParseError,
                >((idx + e, a0, a1, a2)));
                assert(idx + e == sq);
            } else {
                assert(epart =~= Seq::<u8>::empty());
                assert(idx == sq);
            }
            assert(spec_scan_row(epart, idx, a0, a1, a2) == Ok::<_, ParseError>((sq, a0, a1, a2)));
            // the letter claims cell sq for its plane
            let lrest = seq![letter] + rest;
            assert(lrest[0] == letter);
            assert(lrest.skip(1) =~= rest);
            assert(sq < 49);
            let squ = sq as u64;
            let bit_sq = 1u64 << squ;
            let b0: u64;
            let b1: u64;
            let b2: u64;
            if pc == 1 {
                assert(letter == 114);
                assert(bit(d0, sq));
                lemma_mask_step_set(d0, squ);
                lemma_disjoint_bit(d0, d1, squ);
                lemma_mask_step_clear(d1, squ);
                lemma_disjoint_bit(d0, d2, squ);
                lemma_mask_step_clear(d2, squ);
                b0 = (a0 | bit_sq);
                b1 = a1;
                b2 = a2;
                assert(spec_scan_row(lrest, sq, a0, a1, a2) == spec_scan_row(rest, sq + 1, b0, b1, b2));
            } else if pc == 2 {
                assert(letter == 98);
                assert(!bit(d0, sq) && bit(d1, sq));
                lemma_mask_step_clear(d0, squ);
                lemma_mask_step_set(d1, squ);
                lemma_disjoint_bit(d1, d2, squ);
                lemma_mask_step_clear(d2, squ);
                b0 = a0;
                b1 = (a1 | bit_sq);
                b2 = a2;
                assert(spec_scan_row(lrest, sq, a0, a1, a2) == spec_scan_row(rest, sq + 1, b0, b1, b2));
            } else {
                assert(pc == 3);
                assert(letter == 45);
                assert(!bit(d0, sq) && !bit(d1, sq) && bit(d2, sq));
                lemma_mask_step_clear(d0, squ);
                lemma_mask_step_clear(d1, squ);
                lemma_mask_step_set(d2, squ);
                b0 = a0;
                b1 = a1;
                b2 = (a2 | bit_sq);
                assert(spec_scan_row(lrest, sq, a0, a1, a2) == spec_scan_row(rest, sq + 1, b0, b1, b2));
            }
            assert(b0 == d0 & mask_below(sq + 1));
            assert(b1 == d1 & mask_below(sq + 1));
            assert(b2 == d2 & mask_below(sq + 1));
            assert(7 * k + (j + 1) - 0 == sq + 1);
            lemma_scan_rle(d0, d1, d2, k, j + 1, 0, b0, b1, b2);
            assert(spec_scan_row(rest, sq + 1, b0, b1, b2) == Ok::<_, ParseError>(
                (
                    7 * k + 7,
                    d0 & mask_below(7 * k + 7),
                    d1 & mask_below(7 * k + 7),
                    d2 & mask_below(7 * k + 7),
                ),
            ));
        }
    }
}

} // verus!

verus! {

/// The rendered rows of ranks `hi` down to `lo`, one per list entry.
spec fn spec_rank_rows(d0: u64, d1: u64, d2: u64, hi: int, lo: int) -> Seq<Seq<u8>>
    decreases hi - lo,
{
    if hi <= lo {
        seq![spec_rle(d0, d1, d2, lo, 0, 0)]
    } else {
        seq![spec_rle(d0, d1, d2, hi, 0, 0)] + spec_rank_rows(d0, d1, d2, hi - 1, lo)
    }
}

/// The shape of the rank-row list: its length, last element, and the
/// list that remains when the last row is dropped.
proof fn lemma_rank_rows_shape(d0: u64, d1: u64, d2: u64, hi: int, lo: int)
    requires
        lo <= hi,
    ensures
        spec_rank_rows(d0, d1, d2, hi, lo).len() == hi - lo + 1,
        spec_rank_rows(d0, d1, d2, hi, lo).last() == spec_rle(d0, d1, d2, lo, 0, 0),
        lo < hi ==> spec_rank_rows(d0, d1, d2, hi, lo).drop_last() == spec_rank_rows(
            d0,
            d1,
            d2,
            hi,
            lo + 1,
        ),
    decreases hi - lo,
{
    let rows = spec_rank_rows(d0, d1, d2, hi, lo);
    if hi <= lo {
    } else {
        lemma_rank_rows_shape(d0, d1, d2, hi - 1, lo);
        let rest = spec_rank_rows(d0, d1, d2, hi - 1, lo);
        assert(rows.last() == rest.last());
        if lo < hi - 1 {
            assert(rows.drop_last() =~~= seq![spec_rle(d0, d1, d2, hi, 0, 0)] + rest.drop_last());
            assert(rows.drop_last() =~~= spec_rank_rows(d0, d1, d2, hi, lo + 1));
        } else {
            assert(rest =~~= seq![spec_rle(d0, d1, d2, lo, 0, 0)]);
            assert(rows.drop_last() =~~= seq![spec_rle(d0, d1, d2, hi, 0, 0)]);
            assert(spec_rank_rows(d0, d1, d2, hi, lo + 1) =~~= seq![
                spec_rle(d0, d1, d2, hi, 0, 0),
            ]);
        }
    }
}

/// Splitting the placement text on `/` yields exactly the rank rows,
/// top rank first.
proof fn lemma_split_ranks(d0: u64, d1: u64, d2: u64, i: int)
    requires
        0 <= i <= 6,
    ensures
        spec_split(spec_ranks(d0, d1, d2, i), 47) == spec_rank_rows(d0, d1, d2, i, 0),
    decreases i,
{
    if i <= 0 {
        lemma_rle_chars(d0, d1, d2, 0, 0, 0);
        assert(no_byte(spec_rle(d0, d1, d2, 0, 0, 0), 47));
        lemma_split_no_sep(spec_rle(d0, d1, d2, 0, 0, 0), 47);
        assert(spec_ranks(d0, d1, d2, 0) == spec_rle(d0, d1, d2, 0, 0, 0));
    } else {
        lemma_split_ranks(d0, d1, d2, i - 1);
        lemma_rle_chars(d0, d1, d2, i, 0, 0);
        assert(no_byte(spec_rle(d0, d1, d2, i, 0, 0), 47));
        lemma_split_concat(spec_rle(d0, d1, d2, i, 0, 0), spec_ranks(d0, d1, d2, i - 1), 47);
        assert(spec_ranks(d0, d1, d2, i) == spec_rle(d0, d1, d2, i, 0, 0) + seq![47u8]
            + spec_ranks(d0, d1, d2, i - 1));
        assert(spec_split(spec_ranks(d0, d1, d2, i), 47) =~~= spec_rank_rows(d0, d1, d2, i, 0));
    }
}

/// Folding the row scanner over ranks `hi` down to `lo`, bottom row
/// first, fills in the planes up through rank `hi`.
proof fn lemma_scan_rank_rows(
    d0: u64,
    d1: u64,
    d2: u64,
    hi: int,
    lo: int,
    a0: u64,
    a1: u64,
    a2: u64,
)
    requires
        0 <= lo <= hi <= 6,
        d0 & BOARD_MASK == d0,
        d1 & BOARD_MASK == d1,
        d2 & BOARD_MASK == d2,
        d0 & d1 == 0,
        d0 & d2 == 0,
        d1 & d2 == 0,
        a0 == d0 & mask_below(7 * lo),
        a1 == d1 & mask_below(7 * lo),
        a2 == d2 & mask_below(7 * lo),
    ensures
        spec_scan_rows(spec_rank_rows(d0, d1, d2, hi, lo), 7 * lo, a0, a1, a2) == Ok::<
            _,
            ParseError,
        >(
            (
                7 * hi + 7,
                d0 & mask_below(7 * hi + 7),
                d1 & mask_below(7 * hi + 7),
                d2 & mask_below(7 * hi + 7),
            ),
        ),
    decreases hi - lo,
{
    let rows = spec_rank_rows(d0, d1, d2, hi, lo);
    lemma_rank_rows_shape(d0, d1, d2, hi, lo);
    lemma_scan_rle(d0, d1, d2, lo, 0, 0, a0, a1, a2);
    assert(spec_scan_row(rows.last(), 7 * lo, a0, a1, a2) == Ok::<_, ParseError>(
        (7 * lo + 7, d0 & mask_below(7 * lo + 7), d1 & mask_below(7 * lo + 7), d2 & mask_below(
            7 * lo + 7,
        )),
    ));
    let m0 = d0 & mask_below(7 * lo + 7);
    let m1 = d1 & mask_below(7 * lo + 7);
    let m2 = d2 & mask_below(7 * lo + 7);
    assert(rows.len() != 0);
    assert(spec_scan_rows(rows, 7 * lo, a0, a1, a2) == spec_scan_rows(
        rows.drop_last(),
        7 * lo + 7,
        m0,
        m1,
        m2,
    ));
    if lo < hi {
        assert(7 * (lo + 1) == 7 * lo + 7);
        lemma_scan_rank_rows(d0, d1, d2, hi, lo + 1, m0, m1, m2);
        assert(rows.drop_last() == spec_rank_rows(d0, d1, d2, hi, lo + 1));
        assert(spec_scan_rows(rows.drop_last(), 7 * lo + 7, m0, m1, m2) == Ok::<_, ParseError>(
            (7 * hi + 7, d0 & mask_below(7 * hi + 7), d1 & mask_below(7 * hi + 7), d2
                & mask_below(7 * hi + 7)),
        ));
    } else {
        assert(rows.drop_last() =~~= Seq::<Seq<u8>>::empty());
        assert(spec_scan_rows(Seq::<Seq<u8>>::empty(), 7 * lo + 7, m0, m1, m2) == Ok::<
            _,
            ParseError,
        >((7 * lo + 7, m0, m1, m2)));
        assert(7 * hi + 7 == 7 * lo + 7);
    }
}

} // verus!

verus! {

/// Round trip: rendering any well-formed record and parsing the text
/// back yields exactly the record.  In particular every text the
/// renderer produces parses again to the value it was rendered from,
/// so rendering, parsing and rendering again reproduces the text.
#[verifier::rlimit(100)]
pub proof fn lemma_round_trip(b: AtaxxBoard)
    requires
        b.wf(),
    ensures
        spec_from_str(spec_render(b)) == Ok::<AtaxxBoard, ParseError>(b),
{
    let d = spec_canon(b);
    assert(d.bb0 & BOARD_MASK == d.bb0);
    assert(d.bb1 & BOARD_MASK == d.bb1);
    assert(d.bb2 & BOARD_MASK == d.bb2);
    assert(d.bb0 & d.bb1 == 0 && d.bb0 & d.bb2 == 0 && d.bb1 & d.bb2 == 0) by {
        if b.stm {
            assert(d.bb0 == b.bb1 && d.bb1 == b.bb0 && d.bb2 == b.bb2);
            let p = b.bb0;
            let q = b.bb1;
            assert(p & q == q & p) by (bit_vector);
            assert(b.bb1 & b.bb2 == 0 && b.bb0 & b.bb2 == 0);
        }
    }
    assert(d.result <= 2);

    let letter: u8 = if b.stm {
        98u8
    } else {
        114u8
    };
    let pl = spec_ranks(d.bb0, d.bb1, d.bb2, 6);
    let dh = spec_dec(b.halfm as nat);
    let df = spec_dec(b.fullm as nat);
    let sc = spec_dec_i16(d.score);
    let rt = spec_result_text(d.result);
    lemma_ranks_chars(d.bb0, d.bb1, d.bb2, 6);
    lemma_dec_digits(b.halfm as nat);
    lemma_dec_digits(b.fullm as nat);
    lemma_dec_i16_chars(d.score);

    let s = spec_render(b);
    let x1 = pl + seq![32u8, letter, 32u8] + dh + seq![32u8] + df + seq![32u8];
    let x2 = seq![32u8] + sc + seq![32u8];
    let x3 = seq![32u8] + rt;
    assert(s =~= x1 + seq![124u8] + (x2 + seq![124u8] + x3));

    // none of the fields contains the field separator
    assert(no_byte(x1, 124)) by {
        assert forall|i: int| 0 <= i < x1.len() implies x1[i] != 124 by {
            let c1 = pl + seq![32u8, letter, 32u8];
            let c2 = c1 + dh;
            let c3 = c2 + seq![32u8];
            let c4 = c3 + df;
            if i < pl.len() {
                assert(x1[i] == pl[i]);
            } else if i < c1.len() {
                assert(x1[i] == seq![32u8, letter, 32u8][i - pl.len()]);
            } else if i < c2.len() {
                assert(x1[i] == dh[i - c1.len()]);
            } else if i < c3.len() {
                assert(x1[i] == 32);
            } else if i < c4.len() {
                assert(x1[i] == df[i - c3.len()]);
            } else {
                assert(x1[i] == 32);
            }
        }
    }
    assert(no_byte(x2, 124)) by {
        assert forall|i: int| 0 <= i < x2.len() implies x2[i] != 124 by {
            if i == 0 {
            } else if i < 1 + sc.len() {
                assert(x2[i] == sc[i - 1]);
            } else {
                assert(x2[i] == 32);
            }
        }
    }
    assert(no_byte(x3, 124)) by {
        assert forall|i: int| 0 <= i < x3.len() implies x3[i] != 124 by {
            if i > 0 {
                assert(x3[i] == rt[i - 1]);
            }
        }
    }
    lemma_split_concat(x1, x2 + seq![124u8] + x3, 124);
    lemma_split_concat(x2, x3, 124);
    lemma_split_no_sep(x3, 124);
    let parts = spec_split(s, 124);
    assert(parts =~~= seq![x1, x2, x3]);
    assert(parts.len() == 3);
    assert(parts[0] == x1 && parts[1] == x2 && parts[2] == x3);

    // the first field splits into placement, side letter and counters
    assert(no_ws(pl)) by {
        assert forall|i: int| 0 <= i < pl.len() implies !is_ws(#[trigger] pl[i]) by {
            assert(is_placement_byte(pl[i]) || pl[i] == 47);
        }
    }
    assert(no_ws(dh) && no_ws(df)) by {
        assert(forall|i: int| 0 <= i < dh.len() ==> is_digit(#[trigger] dh[i]));
        assert(forall|i: int| 0 <= i < df.len() ==> is_digit(#[trigger] df[i]));
    }
    assert(no_ws(seq![letter])) by {
        assert(seq![letter][0] == letter);
    }
    let e: Seq<u8> = Seq::<u8>::empty();
    let r1 = seq![32u8, letter, 32u8] + dh + seq![32u8] + df + seq![32u8];
    let r2 = seq![letter, 32u8] + dh + seq![32u8] + df + seq![32u8];
    let r3 = seq![32u8] + dh + seq![32u8] + df + seq![32u8];
    let r4 = dh + seq![32u8] + df + seq![32u8];
    let r5 = seq![32u8] + df + seq![32u8];
    let r6 = df + seq![32u8];
    assert(x1 =~= pl + r1);
    lemma_tokens_go_word(pl, r1, e);
    assert(e + pl =~= pl);
    assert(r1 =~= seq![32u8] + r2);
    lemma_tokens_go_ws(r2, pl, 32);
    assert(r2 =~= seq![letter] + r3);
    lemma_tokens_go_word(seq![letter], r3, e);
    assert(e + seq![letter] =~= seq![letter]);
    assert(r3 =~= seq![32u8] + r4);
    lemma_tokens_go_ws(r4, seq![letter], 32);
    assert(r4 =~= dh + r5);
    lemma_tokens_go_word(dh, r5, e);
    assert(e + dh =~= dh);
    assert(r5 =~= seq![32u8] + r6);
    lemma_tokens_go_ws(r6, dh, 32);
    assert(r6 =~= df + seq![32u8]);
    lemma_tokens_go_word(df, seq![32u8], e);
    assert(e + df =~= df);
    lemma_tokens_go_ws(e, df, 32);
    assert(seq![32u8] =~= seq![32u8] + e);
    assert(spec_tokens_go(e, e) =~~= Seq::<Seq<u8>>::empty());
    let toks = spec_tokens(x1);
    assert(toks =~~= seq![pl] + (seq![seq![letter]] + (seq![dh] + (seq![df]
        + Seq::<Seq<u8>>::empty()))));
    assert(toks =~~= seq![pl, seq![letter], dh, df]);
    assert(toks.len() == 4);
    assert(toks[0] == pl && toks[1] == seq![letter] && toks[2] == dh && toks[3] == df);

    // the side letter reads back as the encoded side to move
    if b.stm {
        assert(toks[1] == seq![98u8]);
    } else {
        if seq![114u8] == seq![98u8] {
            assert(seq![114u8][0] == seq![98u8][0]);
            assert(false);
        }
        assert(toks[1] != seq![98u8]);
    }

    // the counters read back
    crate::text::lemma_parse_dec_u8(b.halfm);
    crate::text::lemma_parse_dec_u16(b.fullm);
    assert(spec_parse_u8(toks[2]) == Some(b.halfm));
    assert(spec_parse_u16(toks[3]) == Some(b.fullm));

    // the placement reads back as the de-canonicalized planes
    lemma_split_ranks(d.bb0, d.bb1, d.bb2, 6);
    lemma_mask_zero(d.bb0);
    lemma_mask_zero(d.bb1);
    lemma_mask_zero(d.bb2);
    lemma_scan_rank_rows(
        d.bb0,
        d.bb1,
        d.bb2,
        6,
        0,
        d.bb0 & mask_below(0),
        d.bb1 & mask_below(0),
        d.bb2 & mask_below(0),
    );
    lemma_mask_board();
    assert(d.bb0 & mask_below(49) == d.bb0);
    assert(d.bb1 & mask_below(49) == d.bb1);
    assert(d.bb2 & mask_below(49) == d.bb2);
    assert(spec_scan_rows(spec_split(toks[0], 47), 0, 0, 0, 0) == Ok::<_, ParseError>(
        (49int, d.bb0, d.bb1, d.bb2),
    ));

    // the score reads back
    assert(sc.len() >= 1 && !is_ws(sc[0]) && !is_ws(sc.last())) by {
        assert(is_digit(sc.last()));
        assert(sc[0] == 45 || is_digit(sc[0]));
    }
    lemma_trim_framed(sc);
    assert(spec_trim(parts[1]) == sc);
    lemma_parse_dec_i16(d.score);
    assert(spec_parse_i16(spec_trim(parts[1])) == Some(d.score));

    // the result token reads back
    assert(rt.len() == 3);
    assert(!is_ws(rt[0]) && !is_ws(rt.last())) by {
        assert(rt[0] == 49 || rt[0] == 48);
        assert(rt[2] == 48 || rt[2] == 53);
    }
    lemma_trim_framed(rt);
    assert(spec_trim(parts[2]) == rt);
    assert(spec_result_code(rt) == Some(d.result)) by {
        if d.result == 2 {
            assert(rt == seq![49u8, 46u8, 48u8]);
        } else if d.result == 1 {
            assert(rt == seq![48u8, 46u8, 53u8]);
            if rt == seq![49u8, 46u8, 48u8] {
                assert(rt[0] == 48 && seq![49u8, 46u8, 48u8][0] == 49);
                assert(false);
            }
        } else {
            assert(d.result == 0);
            assert(rt == seq![48u8, 46u8, 48u8]);
            if rt == seq![49u8, 46u8, 48u8] {
                assert(rt[0] == 48 && seq![49u8, 46u8, 48u8][0] == 49);
                assert(false);
            }
            if rt == seq![48u8, 46u8, 53u8] {
                assert(rt[2] == 48 && seq![48u8, 46u8, 53u8][2] == 53);
                assert(false);
            }
            if rt == seq![49u8, 47u8, 50u8] {
                assert(rt[0] == 48 && seq![49u8, 47u8, 50u8][0] == 49);
                assert(false);
            }
        }
    }

    // the canonicalization swap undoes the render-side swap
    let raw = AtaxxBoard {
        bb0: d.bb0,
        bb1: d.bb1,
        bb2: d.bb2,
        score: d.score,
        result: d.result,
        stm: b.stm,
        fullm: b.fullm,
        halfm: b.halfm,
        extra: 0,
    };
    crate::ataxx::lemma_neg16_involution(b.score);
    assert(spec_canon(raw) == b);
    assert(spec_from_str(s) == Ok::<AtaxxBoard, ParseError>(b));
}

} // verus!

verus! {

/// Growing the mask keeps a value already below it.
proof fn lemma_mask_mono(a: u64, m: u64, n: u64)
    requires
        m <= n <= 49,
        a & mask_below(m as int) == a,
    ensures
        a & mask_below(n as int) == a,
{
    assert(a & vstd::prelude::sub(1u64 << m, 1u64) == a && m <= n && n <= 49 ==> a
        & vstd::prelude::sub(1u64 << n, 1u64) == a) by (bit_vector);
    assert(mask_below(m as int) == vstd::prelude::sub(1u64 << m, 1u64));
    assert(mask_below(n as int) == vstd::prelude::sub(1u64 << n, 1u64));
}

/// Setting the bit at the cursor keeps the planes below the grown
/// mask and pairwise disjoint.
proof fn lemma_set_bit_wf(a: u64, b: u64, c: u64, m: u64)
    requires
        m < 49,
        a & mask_below(m as int) == a,
        b & mask_below(m as int) == b,
        c & mask_below(m as int) == c,
        a & b == 0,
        a & c == 0,
        b & c == 0,
    ensures
        (a | (1u64 << m)) & mask_below(m + 1) == (a | (1u64 << m)),
        b & mask_below(m + 1) == b,
        c & mask_below(m + 1) == c,
        (a | (1u64 << m)) & b == 0,
        (a | (1u64 << m)) & c == 0,
    decreases 0int,
{
    let m1: u64 = vstd::prelude::add(m, 1u64);
    assert(m1 == m + 1);
    assert(mask_below(m as int) == vstd::prelude::sub(1u64 << m, 1u64));
    assert(mask_below(m + 1) == vstd::prelude::sub(1u64 << m1, 1u64));
    assert((m < 49 && m1 == vstd::prelude::add(m, 1u64) && a & vstd::prelude::sub(1u64 << m, 1u64)
        == a && b & vstd::prelude::sub(1u64 << m, 1u64) == b && c & vstd::prelude::sub(
        1u64 << m,
        1u64,
    ) == c && a & b == 0 && a & c == 0) ==> ((a | (1u64 << m)) & vstd::prelude::sub(
        1u64 << m1,
        1u64,
    ) == (a | (1u64 << m)) && b & vstd::prelude::sub(1u64 << m1, 1u64) == b && c
        & vstd::prelude::sub(1u64 << m1, 1u64) == c && (a | (1u64 << m)) & b == 0 && (a | (1u64
        << m)) & c == 0)) by (bit_vector);
}

/// Whatever row text is scanned, the planes stay below the cursor's
/// mask and pairwise disjoint, and the cursor stays on the board.
proof fn lemma_scan_row_wf(row: Seq<u8>, idx: int, a0: u64, a1: u64, a2: u64)
    requires
        0 <= idx <= 49,
        a0 & mask_below(idx) == a0,
        a1 & mask_below(idx) == a1,
        a2 & mask_below(idx) == a2,
        a0 & a1 == 0,
        a0 & a2 == 0,
        a1 & a2 == 0,
    ensures
        match spec_scan_row(row, idx, a0, a1, a2) {
            Ok(st) => {
                &&& idx <= st.0 <= 49
                &&& st.1 & mask_below(st.0) == st.1
                &&& st.2 & mask_below(st.0) == st.2
                &&& st.3 & mask_below(st.0) == st.3
                &&& st.1 & st.2 == 0
                &&& st.1 & st.3 == 0
                &&& st.2 & st.3 == 0
            },
            Err(_) => true,
        },
    decreases row.len(),
{
    if row.len() > 0 {
        let c = row[0];
        if (c == 114 || c == 98 || c == 45) && idx < 49 {
            let m = idx as u64;
            let x = a0;
            let y = a1;
            let z = a2;
            assert(x & y == 0 ==> y & x == 0) by (bit_vector);
            assert(x & z == 0 ==> z & x == 0) by (bit_vector);
            assert(y & z == 0 ==> z & y == 0) by (bit_vector);
            if c == 114 {
                lemma_set_bit_wf(a0, a1, a2, m);
                lemma_scan_row_wf(row.skip(1), idx + 1, a0 | (1u64 << m), a1, a2);
            } else if c == 98 {
                lemma_set_bit_wf(a1, a0, a2, m);
                let w = a1 | (1u64 << m);
                assert(w & x == 0 ==> x & w == 0) by (bit_vector);
                lemma_scan_row_wf(row.skip(1), idx + 1, a0, a1 | (1u64 << m), a2);
            } else {
                lemma_set_bit_wf(a2, a0, a1, m);
                let w = a2 | (1u64 << m);
                assert(w & x == 0 ==> x & w == 0) by (bit_vector);
                assert(w & y == 0 ==> y & w == 0) by (bit_vector);
                lemma_scan_row_wf(row.skip(1), idx + 1, a0, a1, a2 | (1u64 << m));
            }
        } else if 49 <= c <= 55 && idx + (c - 48) <= 49 {
            lemma_mask_mono(a0, idx as u64, (idx + (c - 48)) as u64);
            lemma_mask_mono(a1, idx as u64, (idx + (c - 48)) as u64);
            lemma_mask_mono(a2, idx as u64, (idx + (c - 48)) as u64);
            lemma_scan_row_wf(row.skip(1), idx + (c - 48), a0, a1, a2);
        }
    }
}

/// The same, folded over all rows.
proof fn lemma_scan_rows_wf(rows: Seq<Seq<u8>>, idx: int, a0: u64, a1: u64, a2: u64)
    requires
        0 <= idx <= 49,
        a0 & mask_below(idx) == a0,
        a1 & mask_below(idx) == a1,
        a2 & mask_below(idx) == a2,
        a0 & a1 == 0,
        a0 & a2 == 0,
        a1 & a2 == 0,
    ensures
        match spec_scan_rows(rows, idx, a0, a1, a2) {
            Ok(st) => {
                &&& 0 <= st.0 <= 49
                &&& st.1 & BOARD_MASK == st.1
                &&& st.2 & BOARD_MASK == st.2
                &&& st.3 & BOARD_MASK == st.3
                &&& st.1 & st.2 == 0
                &&& st.1 & st.3 == 0
                &&& st.2 & st.3 == 0
            },
            Err(_) => true,
        },
    decreases rows.len(),
{
    lemma_mask_board();
    if rows.len() == 0 {
        lemma_mask_mono(a0, idx as u64, 49);
        lemma_mask_mono(a1, idx as u64, 49);
        lemma_mask_mono(a2, idx as u64, 49);
    } else {
        lemma_scan_row_wf(rows.last(), idx, a0, a1, a2);
        match spec_scan_row(rows.last(), idx, a0, a1, a2) {
            Ok(st) => {
                lemma_scan_rows_wf(rows.drop_last(), st.0, st.1, st.2, st.3);
            },
            Err(_) => {},
        }
    }
}

/// Every record that parsing yields is well formed: its planes sit on
/// the 49 cells, no cell is claimed twice, the result code is at most
/// 2 and the reserved byte is zero.
pub proof fn lemma_parse_wf(s: Seq<u8>)
    ensures
        match spec_from_str(s) {
            Ok(r) => r.wf(),
            Err(_) => true,
        },
{
    let parts = spec_split(s, 124);
    if parts.len() >= 3 {
        let toks = spec_tokens(parts[0]);
        if toks.len() >= 2 {
            lemma_mask_zero(0);
            assert(0u64 & 0u64 == 0u64) by (bit_vector);
            lemma_scan_rows_wf(spec_split(toks[0], 47), 0, 0, 0, 0);
            match spec_scan_rows(spec_split(toks[0], 47), 0, 0, 0, 0) {
                Ok(st) => {
                    match spec_result_code(spec_trim(parts[2])) {
                        Some(result) => {
                            assert(result <= 2);
                            let x = st.2;
                            let y = st.1;
                            let z = st.3;
                            assert(y & x == 0 ==> x & y == 0) by (bit_vector);
                            assert(y & z == 0 ==> z & y == 0) by (bit_vector);
                        },
                        None => {},
                    }
                },
                Err(_) => {},
            }
        }
    }
}

} // verus!

verus! {

/// Feature iteration determinism: the record read from a byte string
/// is one fixed value, so two fresh reconstructions from the same
/// bytes yield identical ordered feature sequences.
pub proof fn lemma_feature_iteration_deterministic(
    bytes: Seq<u8>,
    r1: AtaxxBoard,
    r2: AtaxxBoard,
)
    requires
        r1 == <AtaxxBoard as BulletFormat>::dec(bytes),
        r2 == <AtaxxBoard as BulletFormat>::dec(bytes),
    ensures
        spec_features(r1) == spec_features(r2),
{
}

} // verus!

verus! {

/// The text form of the round trip: any text the renderer produced
/// parses successfully, and rendering the parsed record reproduces
/// the text byte for byte.
pub proof fn lemma_text_round_trip(s: Seq<u8>, b: AtaxxBoard)
    requires
        b.wf(),
        s == spec_render(b),
    ensures
        spec_from_str(s) is Ok,
        spec_render(spec_from_str(s)->Ok_0) == s,
{
    lemma_round_trip(b);
}

} // verus!
