use bulletformat::ataxx::{AtaxxBoard, ParseError};

#[test]
fn parse() {
    let fens = [
        "6b/2r4/1rr4/1rb2bb/2bb3/7/5bb r 3 11 | -570 | 0.0",
        "6b/7/5r1/3rrrr/4brr/4bbb/3r1bb b 1 14 | 120 | 0.0",
        "r1rr3/1r1r3/2-b-r1/r1bbrrr/2-b-rr/1bbbbbb/1bbbrbb b 1 30 | -840 | 0.0",
    ];

    for fen in fens {
        let board: AtaxxBoard = AtaxxBoard::from_str(fen).unwrap();
        assert_eq!(board.render(), fen);
    }
}

#[test]
fn parse_accessors_first_side() {
    let board = AtaxxBoard::from_str("6b/2r4/1rr4/1rb2bb/2bb3/7/5bb r 3 11 | -570 | 0.0").unwrap();
    assert_eq!(board.stm(), 0);
    assert_eq!(board.halfm(), 3);
    assert_eq!(board.fullm(), 11);
    assert_eq!(board.score(), -570);
    assert_eq!(board.result_idx(), 0);
    assert_eq!(board.result_doubled(), 0);
}

#[test]
fn parse_canonicalizes_second_side() {
    // side to move is `b`: planes swap, the score is negated and the
    // result is seen from the mover, all relative to the naive decode
    let board = AtaxxBoard::from_str("6b/7/5r1/3rrrr/4brr/4bbb/3r1bb b 1 14 | 120 | 0.0").unwrap();
    assert_eq!(board.stm(), 1);
    assert_eq!(board.score(), -120);
    assert_eq!(board.result_idx(), 2);
    assert_eq!(board.halfm(), 1);
    assert_eq!(board.fullm(), 14);
}

#[test]
fn parse_counters_default_when_absent() {
    let board = AtaxxBoard::from_str("7/7/7/7/7/7/7 r | 0 | 0.5").unwrap();
    assert_eq!(board.halfm(), 0);
    assert_eq!(board.fullm(), 1);
    assert_eq!(board.render(), "7/7/7/7/7/7/7 r 0 1 | 0 | 0.5");
}

#[test]
fn parse_result_variants() {
    for (tok, idx) in [
        ("1.0", 2),
        ("[1.0]", 2),
        ("1", 2),
        ("0.5", 1),
        ("[0.5]", 1),
        ("1/2", 1),
        ("0.0", 0),
        ("[0.0]", 0),
        ("0", 0),
    ] {
        let fen = format!("7/7/7/7/7/7/7 r 0 1 | 10 | {}", tok);
        let board = AtaxxBoard::from_str(&fen).unwrap();
        assert_eq!(board.result_idx(), idx);
    }
}

#[test]
fn parse_errors() {
    assert_eq!(
        AtaxxBoard::from_str("7/7/7/7/7/7/7 r 0 1 | x | 0.0"),
        Err(ParseError::BadScore)
    );
    assert_eq!(
        AtaxxBoard::from_str("7/7/7/7/7/7/7 r 0 1 | 0 | 2.0"),
        Err(ParseError::BadResult)
    );
    assert_eq!(
        AtaxxBoard::from_str("7/7/7/7/7/7q7 r 0 1 | 0 | 0.0"),
        Err(ParseError::UnrecognisedChar)
    );
    assert_eq!(
        AtaxxBoard::from_str("7/7/7/7/7/7/7r r 0 1 | 0 | 0.0"),
        Err(ParseError::TooManyCells)
    );
    assert_eq!(AtaxxBoard::from_str("7/7/7 r 0 1"), Err(ParseError::Malformed));
    assert_eq!(AtaxxBoard::from_str("only | 0 | 0.0"), Err(ParseError::Malformed));
}

#[test]
fn parse_score_overflow_is_rejected() {
    assert_eq!(
        AtaxxBoard::from_str("7/7/7/7/7/7/7 r 0 1 | 40000 | 0.0"),
        Err(ParseError::BadScore)
    );
    // -32768 is a valid i16; negation for the second side wraps
    let board = AtaxxBoard::from_str("7/7/7/7/7/7/7 b 0 1 | -32768 | 0.5").unwrap();
    assert_eq!(board.score(), -32768);
}
