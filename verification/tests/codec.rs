use rl_tic_tac_toe::codec::{decode, encode, DecodeError};
use rl_tic_tac_toe::game::{Board, Cell};

#[test]
fn encode_empty_board() {
    let b = Board::new();
    assert_eq!(encode(&b), b"[_________]".to_vec());
}

#[test]
fn encode_mixed_board() {
    let mut b = Board::new();
    b.set_cell(0, 0, Cell::X);
    b.set_cell(0, 1, Cell::O);
    b.set_cell(2, 2, Cell::X);
    assert_eq!(encode(&b), b"[XO______X]".to_vec());
}

#[test]
fn decode_well_formed_string() {
    let b = decode(b"[XO_______]").unwrap();
    assert_eq!(b.get(0, 0), Cell::X);
    assert_eq!(b.get(0, 1), Cell::O);
    for i in 2..9 {
        assert_eq!(b.get(i / 3, i % 3), Cell::Nil);
    }
}

#[test]
fn decode_then_encode_returns_the_string() {
    let s = b"[X_O_XO__X]".to_vec();
    let b = decode(&s).unwrap();
    assert_eq!(encode(&b), s);
}

#[test]
fn encode_then_decode_returns_the_board() {
    let mut b = Board::new();
    b.set_cell(1, 1, Cell::O);
    b.set_cell(2, 0, Cell::X);
    let e = encode(&b);
    assert_eq!(decode(&e).unwrap(), b);
}

#[test]
fn decode_rejects_wrong_length() {
    assert_eq!(decode(b""), Err(DecodeError::WrongLength));
    assert_eq!(decode(b"[________]"), Err(DecodeError::WrongLength));
    assert_eq!(decode(b"[_________]X"), Err(DecodeError::WrongLength));
}

#[test]
fn decode_rejects_missing_open_bracket() {
    assert_eq!(decode(b"X_________]"), Err(DecodeError::MissingOpenBracket));
}

#[test]
fn decode_rejects_missing_close_bracket() {
    assert_eq!(decode(b"[__________"), Err(DecodeError::MissingCloseBracket));
}

#[test]
fn decode_rejects_unrecognized_cell() {
    assert_eq!(decode(b"[____Q____]"), Err(DecodeError::UnrecognizedCell));
    assert_eq!(decode(b"[xo_______]"), Err(DecodeError::UnrecognizedCell));
}
