//! The canonical textual encoding of a board: nine cell symbols in row-major
//! order between brackets, `X` and `O` for the two marks and `_` for an empty
//! cell, as in `[XO__X___O]`. This string is the board's key in the persisted
//! value table and must round-trip exactly.

use crate::game::{Board, Cell};
use vstd::prelude::*;

verus! {

/// `[`
pub const OPEN_BRACKET: u8 = 91;

/// `]`
pub const CLOSE_BRACKET: u8 = 93;

/// Errors from decoding a board string.
#[derive(Copy, Clone, PartialEq, Eq, Structural, Debug)]
pub enum DecodeError {
    /// The input is not exactly eleven bytes long.
    WrongLength,
    /// The input does not begin with `[`.
    MissingOpenBracket,
    /// The input does not end with `]`.
    MissingCloseBracket,
    /// A cell symbol is none of `X`, `O`, `_`.
    UnrecognizedCell,
}

/// The symbol of one cell: `X` (88), `O` (79) or `_` (95).
pub open spec fn cell_char(c: Cell) -> u8 {
    match c {
        Cell::X => 88,
        Cell::O => 79,
        Cell::Nil => 95,
    }
}

/// The cell a symbol stands for, if it is a cell symbol at all.
pub open spec fn char_cell(b: u8) -> Option<Cell> {
    if b == 88 {
        Some(Cell::X)
    } else if b == 79 {
        Some(Cell::O)
    } else if b == 95 {
        Some(Cell::Nil)
    } else {
        None
    }
}

/// The encoding of a grid: `[`, nine cell symbols, `]`.
pub open spec fn spec_encode(s: Seq<Cell>) -> Seq<u8> {
    seq![OPEN_BRACKET] + Seq::new(9, |i: int| cell_char(s[i])) + seq![CLOSE_BRACKET]
}

/// Whether `t` is exactly the shape an encoded board has.
pub open spec fn valid_encoding(t: Seq<u8>) -> bool {
    &&& t.len() == 11
    &&& t[0] == OPEN_BRACKET
    &&& t[10] == CLOSE_BRACKET
    &&& forall|i: int| 1 <= i <= 9 ==> char_cell(t[i]) is Some
}

/// The grid an encoded board stands for, when `t` has the right shape.
pub open spec fn spec_decode(t: Seq<u8>) -> Option<Seq<Cell>> {
    if valid_encoding(t) {
        Some(Seq::new(9, |i: int| char_cell(t[i + 1]).unwrap()))
    } else {
        None
    }
}

fn cell_to_char(c: Cell) -> (r: u8)
    ensures
        r == cell_char(c),
{
    match c {
        Cell::X => 88,
        Cell::O => 79,
        Cell::Nil => 95,
    }
}

fn char_to_cell(b: u8) -> (r: Option<Cell>)
    ensures
        r == char_cell(b),
{
    if b == 88 {
        Some(Cell::X)
    } else if b == 79 {
        Some(Cell::O)
    } else if b == 95 {
        Some(Cell::Nil)
    } else {
        None
    }
}

/// Encodes a board as its canonical bracketed string.
pub fn encode(b: &Board) -> (r: Vec<u8>)
    ensures
        r@ == spec_encode(b@),
{
    let mut out: Vec<u8> = Vec::new();
    out.push(OPEN_BRACKET);
    let mut i: usize = 0;
    while i < 9
        invariant
            0 <= i <= 9,
            out@.len() == i + 1,
            out@[0] == OPEN_BRACKET,
            forall|j: int| 0 <= j < i ==> out@[j + 1] == cell_char(b@[j]),
        decreases 9 - i,
    {
        proof {
            assert(3 * ((i as int) / 3) + (i as int) % 3 == i as int);
        }
        out.push(cell_to_char(b.get(i / 3, i % 3)));
        i += 1;
    }
    out.push(CLOSE_BRACKET);
    proof {
        assert(out@ =~= spec_encode(b@));
    }
    out
}

/// Decodes a canonical bracketed board string; rejects anything that is not
/// exactly that shape.
pub fn decode(t: &[u8]) -> (r: Result<Board, DecodeError>)
    ensures
        r is Ok <==> valid_encoding(t@),
        r matches Ok(b) ==> spec_decode(t@) == Some(b@),
        (r == Err::<Board, DecodeError>(DecodeError::WrongLength)) <==> t@.len() != 11,
        (r == Err::<Board, DecodeError>(DecodeError::MissingOpenBracket)) <==> (t@.len() == 11
            && t@[0] != OPEN_BRACKET),
        (r == Err::<Board, DecodeError>(DecodeError::MissingCloseBracket)) <==> (t@.len() == 11
            && t@[0] == OPEN_BRACKET && t@[10] != CLOSE_BRACKET),
        (r == Err::<Board, DecodeError>(DecodeError::UnrecognizedCell)) <==> (t@.len() == 11
            && t@[0] == OPEN_BRACKET && t@[10] == CLOSE_BRACKET && exists|i: int|
            1 <= i <= 9 && char_cell(t@[i]) is None),
{
    if t.len() != 11 {
        return Err(DecodeError::WrongLength);
    }
    if t[0] != OPEN_BRACKET {
        return Err(DecodeError::MissingOpenBracket);
    }
    if t[10] != CLOSE_BRACKET {
        return Err(DecodeError::MissingCloseBracket);
    }
    let mut cells: [Cell; 9] = [Cell::Nil; 9];
    let mut i: usize = 0;
    while i < 9
        invariant
            0 <= i <= 9,
            t@.len() == 11,
            t@[0] == OPEN_BRACKET,
            t@[10] == CLOSE_BRACKET,
            forall|j: int| 0 <= j < i ==> char_cell(t@[j + 1]) == Some(cells@[j]),
        decreases 9 - i,
    {
        match char_to_cell(t[i + 1]) {
            Some(c) => {
                cells[i] = c;
            },
            None => {
                return Err(DecodeError::UnrecognizedCell);
            },
        }
        i += 1;
    }
    let b = Board::from_cells(cells);
    proof {
        assert forall|k: int| 1 <= k <= 9 implies char_cell(t@[k]) is Some by {
            assert(char_cell(t@[(k - 1) + 1]) == Some(cells@[k - 1]));
        }
        assert(valid_encoding(t@));
        assert(spec_decode(t@).unwrap() =~= b@);
    }
    Ok(b)
}

/// Every cell symbol decodes back to the cell it encodes.
pub proof fn lemma_cell_char_roundtrip(c: Cell)
    ensures
        char_cell(cell_char(c)) == Some(c),
{
}

/// Decoding an encoded board gives the board back: `decode(encode(B)) == B`.
pub proof fn lemma_decode_encode(s: Seq<Cell>)
    requires
        s.len() == 9,
    ensures
        spec_decode(spec_encode(s)) == Some(s),
{
    let t = spec_encode(s);
    assert forall|i: int| 1 <= i <= 9 implies char_cell(t[i]) is Some by {
        assert(t[i] == cell_char(s[i - 1]));
        lemma_cell_char_roundtrip(s[i - 1]);
    }
    assert(valid_encoding(t));
    assert(spec_decode(t).unwrap() =~= s) by {
        assert forall|i: int| 0 <= i < 9 implies char_cell(t[i + 1]).unwrap() == s[i] by {
            assert(t[i + 1] == cell_char(s[i]));
            lemma_cell_char_roundtrip(s[i]);
        }
    }
}

/// Encoding a decoded well-formed board string gives the string back:
/// `encode(decode(s)) == s` for every string of the canonical shape.
pub proof fn lemma_encode_decode(t: Seq<u8>)
    requires
        valid_encoding(t),
    ensures
        spec_encode(spec_decode(t).unwrap()) == t,
{
    let s = spec_decode(t).unwrap();
    assert(spec_encode(s) =~= t) by {
        assert forall|i: int| 0 <= i < 11 implies spec_encode(s)[i] == t[i] by {
            if 1 <= i <= 9 {
                assert(char_cell(t[i]) is Some);
                assert(spec_encode(s)[i] == cell_char(s[i - 1]));
                assert(s[i - 1] == char_cell(t[i]).unwrap());
            }
        }
    }
}

} // verus!
