//! Moves and their dense integer encoding.

use vstd::prelude::*;
use crate::bits::{sq_file, sq_playable, sq_rank};
use crate::square::{file_of_char, name_spec, rank_of_char, Square};

verus! {

/// A move: place a new piece next to a friendly one, jump a piece two rings
/// away, or pass when no move exists.
#[derive(Clone, Copy, Debug, PartialEq, Eq, Structural)]
pub enum Move {
    Single { to: Square },
    Double { from: Square, to: Square },
    Pass,
}

/// The dense index of a square over the 49 playable cells.
pub open spec fn ci(i: int) -> int {
    sq_file(i) + 7 * sq_rank(i)
}

/// The playable square with the given dense index.
pub open spec fn sq_of_ci(c: int) -> Square {
    Square((8 * (c / 7) + c % 7) as u8)
}

/// The reserved index that stands for a pass: the pair a1/g7 that no
/// distinct-square jump uses.
pub open spec fn pass_index() -> int {
    ci(0) + 49 * ci(54)
}

/// The dense index of a move: destination index, plus 49 times the origin
/// index (the destination again for a placement).
pub open spec fn move_index_spec(mv: Move) -> int {
    match mv {
        Move::Single { to } => ci(to.0 as int) + 49 * ci(to.0 as int),
        Move::Double { from, to } => ci(to.0 as int) + 49 * ci(from.0 as int),
        Move::Pass => pass_index(),
    }
}

/// The move a dense index denotes.
pub open spec fn move_of_index_spec(index: int) -> Move {
    if index == pass_index() {
        Move::Pass
    } else {
        let to = sq_of_ci(index % 49);
        let from = sq_of_ci(index / 49);
        if from == to {
            Move::Single { to }
        } else {
            Move::Double { from, to }
        }
    }
}

impl Move {
    /// The dense index of this move.
    pub fn index(self) -> (r: usize)
        ensures
            r == move_index_spec(self),
    {
        match self {
            Move::Single { to } => {
                let c = to.compressed_index();
                proof {
                    assert(c * 49 <= 224 * 49) by (nonlinear_arith)
                        requires
                            c <= 224,
                    ;
                }
                c + c * (7 * 7)
            },
            Move::Double { from, to } => {
                let cf = from.compressed_index();
                let ct = to.compressed_index();
                proof {
                    assert(cf * 49 <= 224 * 49) by (nonlinear_arith)
                        requires
                            cf <= 224,
                    ;
                }
                ct + cf * (7 * 7)
            },
            Move::Pass => {
                let a1 = Square(0);
                let g7 = Square(54);
                a1.compressed_index() + g7.compressed_index() * (7 * 7)
            },
        }
    }

    /// The move with the given dense index.
    pub fn from_index(index: usize) -> (r: Move)
        requires
            index <= 2400,
        ensures
            r == move_of_index_spec(index as int),
    {
        if index == 2352 {
            Move::Pass
        } else {
            let to = Square::from_compressed_index(index % (7 * 7));
            let from = Square::from_compressed_index(index / (7 * 7));
            proof {
                lemma_sq_of_ci_parts(index as int % 49);
                lemma_sq_of_ci_parts(index as int / 49);
            }
            if from == to {
                Move::Single { to }
            } else {
                Move::Double { from, to }
            }
        }
    }
}

/// Why a square name or move text was rejected.
#[derive(Clone, Copy, Debug, PartialEq, Eq, Structural)]
pub enum MoveTextError {
    InvalidSquare,
    InvalidMoveText,
}

/// The square a two-character name denotes, if the letter and digit are
/// both in range.
pub open spec fn square_of_chars(fc: char, rc: char) -> Option<Square> {
    match (file_of_char(fc), rank_of_char(rc)) {
        (Some(f), Some(r)) => Some(Square((8 * r + f) as u8)),
        _ => None,
    }
}

/// The text of a move: a fixed four-character sentinel for a pass, the
/// destination name for a placement, origin then destination for a jump.
pub open spec fn move_text_spec(mv: Move) -> Seq<char> {
    match mv {
        Move::Pass => seq!['0', '0', '0', '0'],
        Move::Single { to } => name_spec(to.0 as int),
        Move::Double { from, to } => name_spec(from.0 as int) + name_spec(to.0 as int),
    }
}

/// The move a text denotes: the pass sentinel, one square name, or two;
/// a bad name is one error, any other length the other.
pub open spec fn parse_move_text(cs: Seq<char>) -> Result<Move, MoveTextError> {
    if cs == seq!['0', '0', '0', '0'] {
        Ok(Move::Pass)
    } else if cs.len() == 2 {
        match square_of_chars(cs[0], cs[1]) {
            Some(sq) => Ok(Move::Single { to: sq }),
            None => Err(MoveTextError::InvalidSquare),
        }
    } else if cs.len() == 4 {
        match (square_of_chars(cs[0], cs[1]), square_of_chars(cs[2], cs[3])) {
            (Some(a), Some(bq)) => Ok(Move::Double { from: a, to: bq }),
            _ => Err(MoveTextError::InvalidSquare),
        }
    } else {
        Err(MoveTextError::InvalidMoveText)
    }
}

/// The letter and digit of a two-character square name, as a square.
fn square_from_chars(fc: char, rc: char) -> (r: Option<Square>)
    ensures
        r == square_of_chars(fc, rc),
{
    let f: u8 = match fc {
        'a' => 0,
        'b' => 1,
        'c' => 2,
        'd' => 3,
        'e' => 4,
        'f' => 5,
        'g' => 6,
        'h' => 7,
        _ => 8,
    };
    let r: u8 = match rc {
        '1' => 0,
        '2' => 1,
        '3' => 2,
        '4' => 3,
        '5' => 4,
        '6' => 5,
        '7' => 6,
        '8' => 7,
        _ => 8,
    };
    if f < 8 && r < 8 {
        Some(Square(8 * r + f))
    } else {
        None
    }
}

impl Square {
    /// Read a square from its two-character name.
    pub fn from_text(s: &str) -> (r: Result<Square, MoveTextError>)
        ensures
            s@.len() == 2 ==> r == (match square_of_chars(s@[0], s@[1]) {
                Some(sq) => Ok::<Square, MoveTextError>(sq),
                None => Err::<Square, MoveTextError>(MoveTextError::InvalidSquare),
            }),
            s@.len() != 2 ==> r == Err::<Square, MoveTextError>(MoveTextError::InvalidSquare),
    {
        let cs = crate::fen::chars_vec(s);
        if cs.len() != 2 {
            return Err(MoveTextError::InvalidSquare);
        }
        match square_from_chars(cs[0], cs[1]) {
            Some(sq) => Ok(sq),
            None => Err(MoveTextError::InvalidSquare),
        }
    }
}

impl Move {
    /// Write this move as text: the pass sentinel, or one or two square
    /// names.
    pub fn text(self) -> (r: String)
        requires
            match self {
                Move::Single { to } => to.0 < 64,
                Move::Double { from, to } => from.0 < 64 && to.0 < 64,
                Move::Pass => true,
            },
        ensures
            r@ == move_text_spec(self),
    {
        proof {
            reveal_strlit("0000");
        }
        match self {
            Move::Pass => {
                let s = String::from_str("0000");
                proof {
                    assert(s@ =~= move_text_spec(self));
                }
                s
            },
            Move::Single { to } => {
                let n = to.name();
                match n {
                    Some(s) => s,
                    None => String::new(),
                }
            },
            Move::Double { from, to } => {
                let mut s = match from.name() {
                    Some(x) => x,
                    None => String::new(),
                };
                let t = match to.name() {
                    Some(x) => x,
                    None => String::new(),
                };
                s.append(t.as_str());
                proof {
                    assert(s@ =~= move_text_spec(self));
                }
                s
            },
        }
    }

    /// Read a move from text: the pass sentinel, one square name, or two.
    pub fn from_text(s: &str) -> (r: Result<Move, MoveTextError>)
        ensures
            r == parse_move_text(s@),
    {
        let cs = crate::fen::chars_vec(s);
        if cs.len() == 4 && cs[0] == '0' && cs[1] == '0' && cs[2] == '0' && cs[3] == '0' {
            proof {
                assert(cs@ =~= seq!['0', '0', '0', '0']);
            }
            return Ok(Move::Pass);
        }
        proof {
            if cs@.len() == 4 {
                assert(cs@ == seq!['0', '0', '0', '0'] ==> cs@[0] == '0' && cs@[1] == '0' && cs@[2]
                    == '0' && cs@[3] == '0');
            } else {
                assert(cs@.len() != seq!['0', '0', '0', '0'].len());
                assert(cs@ != seq!['0', '0', '0', '0']);
            }
        }
        if cs.len() == 2 {
            match square_from_chars(cs[0], cs[1]) {
                Some(sq) => Ok(Move::Single { to: sq }),
                None => Err(MoveTextError::InvalidSquare),
            }
        } else if cs.len() == 4 {
            match square_from_chars(cs[0], cs[1]) {
                Some(a) => {
                    match square_from_chars(cs[2], cs[3]) {
                        Some(bq) => Ok(Move::Double { from: a, to: bq }),
                        None => Err(MoveTextError::InvalidSquare),
                    }
                },
                None => Err(MoveTextError::InvalidSquare),
            }
        } else {
            Err(MoveTextError::InvalidMoveText)
        }
    }
}

/// The components of the playable square with a given dense index.
proof fn lemma_sq_of_ci_parts(c: int)
    requires
        0 <= c < 49,
    ensures
        sq_of_ci(c).0 == 8 * (c / 7) + c % 7,
        sq_playable(sq_of_ci(c).0 as int),
        sq_file(sq_of_ci(c).0 as int) == c % 7,
        sq_rank(sq_of_ci(c).0 as int) == c / 7,
        ci(sq_of_ci(c).0 as int) == c,
{
    let rk = c / 7;
    let fl = c % 7;
    assert(0 <= rk < 7 && 0 <= fl < 7);
    assert((8 * rk + fl) / 8 == rk && (8 * rk + fl) % 8 == fl);
}

/// The dense move index is a bijection on the theoretical move space: a
/// pass, any placement on a playable square, and any jump between two
/// distinct playable squares, except the one jump whose origin/destination
/// pair is reserved for the pass, decode from their own index.
#[verifier::rlimit(40)]
pub proof fn lemma_move_index_roundtrip(mv: Move)
    requires
        match mv {
            Move::Single { to } => sq_playable(to.0 as int),
            Move::Double { from, to } => sq_playable(from.0 as int) && sq_playable(to.0 as int)
                && from != to && !(from.0 == 54 && to.0 == 0),
            Move::Pass => true,
        },
    ensures
        move_of_index_spec(move_index_spec(mv)) == mv,
{
    assert(ci(0) == 0 && ci(54) == 48);
    assert(pass_index() == 2352);
    match mv {
        Move::Single { to } => {
            let c = ci(to.0 as int);
            lemma_ci_bounds(to.0 as int);
            let idx = c + 49 * c;
            assert(idx % 49 == c && idx / 49 == c) by {
                assert(idx == 50 * c);
                assert((49 * c + c) % 49 == c) by {
                    vstd::arithmetic::div_mod::lemma_mod_multiples_vanish(c, c, 49);
                }
                assert((49 * c + c) / 49 == c) by {
                    vstd::arithmetic::div_mod::lemma_div_multiples_vanish_fancy(c, c, 49);
                }
            };
            assert(idx != 2352);
            lemma_sq_inverse(to.0 as int);
        },
        Move::Double { from, to } => {
            let cf = ci(from.0 as int);
            let ct = ci(to.0 as int);
            lemma_ci_bounds(from.0 as int);
            lemma_ci_bounds(to.0 as int);
            let idx = ct + 49 * cf;
            assert(idx % 49 == ct && idx / 49 == cf) by {
                vstd::arithmetic::div_mod::lemma_mod_multiples_vanish(cf, ct, 49);
                vstd::arithmetic::div_mod::lemma_div_multiples_vanish_fancy(cf, ct, 49);
            };
            lemma_sq_inverse(from.0 as int);
            lemma_sq_inverse(to.0 as int);
            assert(cf != ct) by {
                if cf == ct {
                    assert(sq_of_ci(cf) == sq_of_ci(ct));
                }
            };
            assert(idx != 2352) by {
                if idx == 2352 {
                    assert(ct == 2352int % 49 && cf == 2352int / 49) by {
                        vstd::arithmetic::div_mod::lemma_mod_multiples_vanish(cf, ct, 49);
                        vstd::arithmetic::div_mod::lemma_div_multiples_vanish_fancy(cf, ct, 49);
                    };
                    assert(ct == 0 && cf == 48);
                    assert(to.0 == 0 && from.0 == 54);
                }
            };
        },
        Move::Pass => {},
    }
}

/// The dense index of a playable square lies below 49.
proof fn lemma_ci_bounds(i: int)
    requires
        sq_playable(i),
    ensures
        0 <= ci(i) < 49,
{
}

/// Dense-index decoding inverts dense-index encoding on playable squares.
proof fn lemma_sq_inverse(i: int)
    requires
        sq_playable(i),
    ensures
        sq_of_ci(ci(i)) == Square(i as u8),
{
    let f = sq_file(i);
    let r = sq_rank(i);
    let c = f + 7 * r;
    assert(c / 7 == r && c % 7 == f) by {
        vstd::arithmetic::div_mod::lemma_mod_multiples_vanish(r, f, 7);
        vstd::arithmetic::div_mod::lemma_div_multiples_vanish_fancy(r, f, 7);
    };
    assert(8 * (c / 7) + c % 7 == 8 * r + f);
    assert(i == 8 * r + f);
}

} // verus!
