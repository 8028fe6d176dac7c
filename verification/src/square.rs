//! Coordinates on the 8x8 backing grid, of which a 7x7 region is playable.

use vstd::prelude::*;
use crate::bits::{bit, chebyshev, sq_file, sq_playable, sq_rank};
use crate::player::Player;

verus! {

/// A square, held as a raw index into the 8x8 backing grid.  Index 64 is
/// the out-of-board sentinel; only indices whose file and rank are both
/// below 7 denote playable cells.
#[derive(PartialEq, Eq, Clone, Copy, Debug, PartialOrd, Ord, Hash, Structural)]
pub struct Square(pub u8);

/// The playable squares with raw index below `n`, in increasing order.
pub open spec fn playable_squares_to(n: int) -> Seq<Square>
    decreases n,
{
    if n <= 0 {
        Seq::empty()
    } else {
        playable_squares_to(n - 1) + if sq_playable(n - 1) {
            seq![Square((n - 1) as u8)]
        } else {
            Seq::empty()
        }
    }
}

/// All 49 playable squares, in increasing raw-index order.
pub open spec fn all_squares() -> Seq<Square> {
    playable_squares_to(64)
}

/// The letter of a file on the 8x8 grid.
pub open spec fn file_char(f: int) -> char {
    if f == 0 {
        'a'
    } else if f == 1 {
        'b'
    } else if f == 2 {
        'c'
    } else if f == 3 {
        'd'
    } else if f == 4 {
        'e'
    } else if f == 5 {
        'f'
    } else if f == 6 {
        'g'
    } else {
        'h'
    }
}

/// The digit of a rank on the 8x8 grid.
pub open spec fn rank_char(r: int) -> char {
    if r == 0 {
        '1'
    } else if r == 1 {
        '2'
    } else if r == 2 {
        '3'
    } else if r == 3 {
        '4'
    } else if r == 4 {
        '5'
    } else if r == 5 {
        '6'
    } else if r == 6 {
        '7'
    } else {
        '8'
    }
}

/// The two-character name of a square: file letter, then rank digit.
pub open spec fn name_spec(i: int) -> Seq<char> {
    seq![file_char(i % 8), rank_char(i / 8)]
}

/// The file with the given letter, if any.
pub open spec fn file_of_char(c: char) -> Option<int> {
    if c == 'a' {
        Some(0)
    } else if c == 'b' {
        Some(1)
    } else if c == 'c' {
        Some(2)
    } else if c == 'd' {
        Some(3)
    } else if c == 'e' {
        Some(4)
    } else if c == 'f' {
        Some(5)
    } else if c == 'g' {
        Some(6)
    } else if c == 'h' {
        Some(7)
    } else {
        None
    }
}

/// The rank with the given digit, if any.
pub open spec fn rank_of_char(c: char) -> Option<int> {
    if c == '1' {
        Some(0)
    } else if c == '2' {
        Some(1)
    } else if c == '3' {
        Some(2)
    } else if c == '4' {
        Some(3)
    } else if c == '5' {
        Some(4)
    } else if c == '6' {
        Some(5)
    } else if c == '7' {
        Some(6)
    } else if c == '8' {
        Some(7)
    } else {
        None
    }
}

/// The file letter of a file index, as a one-character string slice.
fn file_str(f: u8) -> (r: &'static str)
    requires
        f < 8,
    ensures
        r@ == seq![file_char(f as int)],
{
    proof {
        reveal_strlit("a");
        reveal_strlit("b");
        reveal_strlit("c");
        reveal_strlit("d");
        reveal_strlit("e");
        reveal_strlit("f");
        reveal_strlit("g");
        reveal_strlit("h");
    }
    let r = match f {
        0 => "a",
        1 => "b",
        2 => "c",
        3 => "d",
        4 => "e",
        5 => "f",
        6 => "g",
        _ => "h",
    };
    proof {
        assert(r@ =~= seq![file_char(f as int)]);
    }
    r
}

/// The rank digit of a rank index, as a one-character string slice.
pub(crate) fn rank_str(rk: u8) -> (r: &'static str)
    requires
        rk < 8,
    ensures
        r@ == seq![rank_char(rk as int)],
{
    proof {
        reveal_strlit("1");
        reveal_strlit("2");
        reveal_strlit("3");
        reveal_strlit("4");
        reveal_strlit("5");
        reveal_strlit("6");
        reveal_strlit("7");
        reveal_strlit("8");
    }
    let r = match rk {
        0 => "1",
        1 => "2",
        2 => "3",
        3 => "4",
        4 => "5",
        5 => "6",
        6 => "7",
        _ => "8",
    };
    proof {
        assert(r@ =~= seq![rank_char(rk as int)]);
    }
    r
}

impl Square {
    /// The two-character name of this square, for any cell of the 8x8
    /// grid; the out-of-board sentinel has none.
    pub fn name(self) -> (r: Option<String>)
        ensures
            self.0 < 64 ==> (r matches Some(s) && s@ == name_spec(self.0 as int)),
            self.0 >= 64 ==> r is None,
    {
        if self.0 >= 64 {
            return None;
        }
        let mut s = String::new();
        s.append(file_str(self.0 % 8));
        s.append(rank_str(self.0 / 8));
        proof {
            assert(s@ =~= name_spec(self.0 as int));
        }
        Some(s)
    }

    /// Build a square from its rank and file on the 8x8 grid.
    pub fn from_rank_file(rank: u8, file: u8) -> (r: Square)
        requires
            rank * 8 + file <= 64,
        ensures
            r.0 == rank * 8 + file,
    {
        Square(rank * 8 + file)
    }

    /// Build a square from a raw index; 64 is the out-of-board sentinel.
    pub fn new(inner: u8) -> (r: Square)
        requires
            inner <= 64,
        ensures
            r.0 == inner,
    {
        Square(inner)
    }

    /// Mirror the square across the horizontal midline of the 8x8 grid.
    pub fn flip_rank(self) -> (r: Square)
        requires
            self.0 < 64,
        ensures
            r.0 < 64,
            sq_rank(r.0 as int) == 7 - sq_rank(self.0 as int),
            sq_file(r.0 as int) == sq_file(self.0 as int),
    {
        proof {
            let s = self.0;
            assert(s < 64 ==> (s ^ 0b111_000) < 64 && ((s ^ 0b111_000) as int) % 8 == (s as int)
                % 8 && ((s ^ 0b111_000) as int) / 8 == 7 - (s as int) / 8) by (bit_vector);
        }
        Square(self.0 ^ 0b111_000)
    }

    /// Mirror the square across the vertical midline of the 8x8 grid.
    pub fn flip_file(self) -> (r: Square)
        requires
            self.0 < 64,
        ensures
            r.0 < 64,
            sq_rank(r.0 as int) == sq_rank(self.0 as int),
            sq_file(r.0 as int) == 7 - sq_file(self.0 as int),
    {
        proof {
            let s = self.0;
            assert(s < 64 ==> (s ^ 0b000_111) < 64 && ((s ^ 0b000_111) as int) % 8 == 7 - (s
                as int) % 8 && ((s ^ 0b000_111) as int) / 8 == (s as int) / 8) by (bit_vector);
        }
        Square(self.0 ^ 0b000_111)
    }

    /// The square as seen from the given side: unchanged for the first
    /// player, rank-mirrored for the second.
    pub fn relative_to(self, side: Player) -> (r: Square)
        requires
            self.0 < 64,
        ensures
            r.0 < 64,
            side == Player::White ==> r == self,
            side == Player::Black ==> sq_rank(r.0 as int) == 7 - sq_rank(self.0 as int)
                && sq_file(r.0 as int) == sq_file(self.0 as int),
    {
        if matches!(side, Player::White) {
            self
        } else {
            self.flip_rank()
        }
    }

    /// The file that this square is on.
    pub fn file(self) -> (r: u8)
        ensures
            r == sq_file(self.0 as int),
    {
        self.0 % 8
    }

    /// The rank that this square is on.
    pub fn rank(self) -> (r: u8)
        ensures
            r == sq_rank(self.0 as int),
    {
        self.0 / 8
    }

    /// Chebyshev (king-move) distance between two squares.
    pub fn distance(a: Square, b: Square) -> (r: u8)
        ensures
            r == chebyshev(a.0 as int, b.0 as int),
    {
        let af = a.file();
        let bf = b.file();
        let ar = a.rank();
        let br = b.rank();
        let df = if af >= bf {
            af - bf
        } else {
            bf - af
        };
        let dr = if ar >= br {
            ar - br
        } else {
            br - ar
        };
        if df >= dr {
            df
        } else {
            dr
        }
    }

    /// The raw index as a signed byte.
    pub fn signed_inner(self) -> (r: i8)
        requires
            self.0 <= 64,
        ensures
            r == self.0,
    {
        self.0 as i8
    }

    /// The raw index, widened for indexing.
    pub fn index(self) -> (r: usize)
        ensures
            r == self.0,
    {
        self.0 as usize
    }

    /// The raw index.
    pub fn inner(self) -> (r: u8)
        ensures
            r == self.0,
    {
        self.0
    }

    /// Move forward by `offset` raw indices, staying on the grid.
    pub fn add(self, offset: u8) -> (r: Square)
        requires
            self.0 + offset < 64,
        ensures
            r.0 == self.0 + offset,
    {
        Square(self.0 + offset)
    }

    /// Move forward by `offset` raw indices, allowing the sentinel 64.
    pub fn add_beyond_board(self, offset: u8) -> (r: Square)
        requires
            self.0 + offset < 65,
        ensures
            r.0 == self.0 + offset,
    {
        Square(self.0 + offset)
    }

    /// Move backward by `offset` raw indices, staying on the grid.
    pub fn sub(self, offset: u8) -> (r: Square)
        requires
            offset <= self.0,
            self.0 - offset < 64,
        ensures
            r.0 == self.0 - offset,
    {
        Square(self.0 - offset)
    }

    /// The square denotes a cell of the 8x8 grid, not the sentinel.
    pub fn on_board(self) -> (r: bool)
        ensures
            r == (self.0 < 64),
    {
        self.0 < 64
    }

    /// The bitboard holding exactly this square.
    pub fn as_set(self) -> (r: u64)
        requires
            self.0 < 64,
        ensures
            r == 1u64 << self.0,
            forall|i: int| 0 <= i < 64 ==> bit(r, i) == (i == self.0 as int),
    {
        proof {
            assert forall|i: int| 0 <= i < 64 implies bit(1u64 << self.0, i) == (i == self.0
                as int) by {
                crate::bits::lemma_single_bit(self.0 as u64, i);
            }
        }
        1u64 << self.0
    }

    /// One rank forward for the given side.
    pub fn pawn_push(self, side: Player) -> (r: Square)
        requires
            side == Player::White ==> self.0 + 8 < 64,
            side == Player::Black ==> 8 <= self.0 && self.0 - 8 < 64,
        ensures
            side == Player::White ==> r.0 == self.0 + 8,
            side == Player::Black ==> r.0 == self.0 - 8,
    {
        if side == Player::White {
            self.add(8)
        } else {
            self.sub(8)
        }
    }

    /// One rank forward and one file right for the given side.
    pub fn pawn_right(self, side: Player) -> (r: Square)
        requires
            side == Player::White ==> self.0 + 9 < 64,
            side == Player::Black ==> 7 <= self.0 && self.0 - 7 < 64,
        ensures
            side == Player::White ==> r.0 == self.0 + 9,
            side == Player::Black ==> r.0 == self.0 - 7,
    {
        if side == Player::White {
            self.add(9)
        } else {
            self.sub(7)
        }
    }

    /// One rank forward and one file left for the given side.
    pub fn pawn_left(self, side: Player) -> (r: Square)
        requires
            side == Player::White ==> self.0 + 7 < 64,
            side == Player::Black ==> 9 <= self.0 && self.0 - 9 < 64,
        ensures
            side == Player::White ==> r.0 == self.0 + 7,
            side == Player::Black ==> r.0 == self.0 - 9,
    {
        if side == Player::White {
            self.add(7)
        } else {
            self.sub(9)
        }
    }

    pub fn le(self, other: Square) -> (r: bool)
        ensures
            r == (self.0 <= other.0),
    {
        self.0 <= other.0
    }

    pub fn ge(self, other: Square) -> (r: bool)
        ensures
            r == (self.0 >= other.0),
    {
        self.0 >= other.0
    }

    pub fn lt(self, other: Square) -> (r: bool)
        ensures
            r == (self.0 < other.0),
    {
        self.0 < other.0
    }

    pub fn gt(self, other: Square) -> (r: bool)
        ensures
            r == (self.0 > other.0),
    {
        self.0 > other.0
    }

    /// All 49 playable squares, in increasing raw-index order.
    pub fn all() -> (r: Vec<Square>)
        ensures
            r@ == all_squares(),
            forall|k: int| 0 <= k < r@.len() ==> sq_playable(#[trigger] r@[k].0 as int),
    {
        let mut v: Vec<Square> = Vec::new();
        let mut i: u8 = 0;
        while i < 64
            invariant
                0 <= i <= 64,
                v@ == playable_squares_to(i as int),
                forall|k: int| 0 <= k < v@.len() ==> sq_playable(#[trigger] v@[k].0 as int),
            decreases 64 - i,
        {
            if i % 8 != 7 && i / 8 != 7 {
                v.push(Square(i));
            }
            i = i + 1;
        }
        v
    }

    /// The dense index over the 49 playable cells: file plus 7 times rank.
    pub fn compressed_index(self) -> (r: usize)
        ensures
            r == sq_file(self.0 as int) + 7 * sq_rank(self.0 as int),
            r <= 224,
            sq_playable(self.0 as int) ==> r < 49,
    {
        self.file() as usize + self.rank() as usize * 7
    }

    /// The playable square with the given dense index.
    pub fn from_compressed_index(index: usize) -> (r: Square)
        requires
            index < 49,
        ensures
            r.0 < 64,
            sq_playable(r.0 as int),
            sq_file(r.0 as int) == index % 7,
            sq_rank(r.0 as int) == index / 7,
    {
        let r = Square::from_rank_file((index / 7) as u8, (index % 7) as u8);
        proof {
            let rk = index as int / 7;
            let fl = index as int % 7;
            assert(r.0 == 8 * rk + fl);
            assert((8 * rk + fl) / 8 == rk && (8 * rk + fl) % 8 == fl);
        }
        r
    }
}

} // verus!
