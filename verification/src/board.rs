//! The board: packed occupancy for both sides, the blocked cells, turn and
//! quiet-move tracking, move application, move generation, and the
//! terminal-state rules.

use vstd::prelude::*;
use crate::bits::{
    bit, chebyshev, count_bits, expand, expand_spec, lemma_bits_ops, lemma_expand2_sem,
    lemma_expand_playable_only, lemma_expand_sem, lemma_mask_bits, lemma_playable_only_bits,
    lemma_playable_only_intro, lemma_popcount_pos, lemma_popcount_zero, lemma_single_bit,
    playable_only, popcount, reaches, sq_playable, BB_ALL, BB_EDGE,
};
use crate::player::Player;
use crate::square::Square;
use crate::moves::Move;

verus! {

/// The number of quiet half-moves at which the game ends by inactivity.
pub const QUIET_LIMIT: u8 = 100;

/// A game position: one bitboard per side, the blocked cells, the number of
/// half-moves played, and the count of half-moves since the last placement.
#[derive(Clone, Copy, Debug, PartialEq, Eq, Structural)]
pub struct Board {
    white: u64,
    black: u64,
    walls: u64,
    ply: u8,
    halfmove: u8,
}

impl Board {
    /// The first player's occupancy bitboard.
    pub closed spec fn white_bb(self) -> u64 {
        self.white
    }

    /// The second player's occupancy bitboard.
    pub closed spec fn black_bb(self) -> u64 {
        self.black
    }

    /// The blocked-cell bitboard.
    pub closed spec fn walls_bb(self) -> u64 {
        self.walls
    }

    /// The number of half-moves played since the game start.
    pub closed spec fn ply_count(self) -> u8 {
        self.ply
    }

    /// The number of half-moves since the last single placement.
    pub closed spec fn quiet_count(self) -> u8 {
        self.halfmove
    }

    /// Two boards with equal components are equal.
    pub proof fn lemma_ext(a: Board, b: Board)
        requires
            a.white_bb() == b.white_bb(),
            a.black_bb() == b.black_bb(),
            a.walls_bb() == b.walls_bb(),
            a.ply_count() == b.ply_count(),
            a.quiet_count() == b.quiet_count(),
        ensures
            a == b,
    {
    }

    /// The board a record with the given components denotes.
    pub closed spec fn mk_spec(white: u64, black: u64, walls: u64, ply: u8, halfmove: u8) -> Board {
        Board { white, black, walls, ply, halfmove }
    }

    /// The components of `mk_spec` are its arguments.
    pub proof fn lemma_mk_spec(white: u64, black: u64, walls: u64, ply: u8, halfmove: u8)
        ensures
            Board::mk_spec(white, black, walls, ply, halfmove).white_bb() == white,
            Board::mk_spec(white, black, walls, ply, halfmove).black_bb() == black,
            Board::mk_spec(white, black, walls, ply, halfmove).walls_bb() == walls,
            Board::mk_spec(white, black, walls, ply, halfmove).ply_count() == ply,
            Board::mk_spec(white, black, walls, ply, halfmove).quiet_count() == halfmove,
    {
    }

    /// Well-formedness: both occupancies stay inside the playable region,
    /// the three cell sets are pairwise disjoint, and every cell outside
    /// the playable region is blocked.
    pub open spec fn wf(self) -> bool {
        &&& playable_only(self.white_bb())
        &&& playable_only(self.black_bb())
        &&& forall|i: int| !(#[trigger] bit(self.white_bb(), i) && bit(self.black_bb(), i))
        &&& forall|i: int| !(#[trigger] bit(self.white_bb(), i) && bit(self.walls_bb(), i))
        &&& forall|i: int| !(#[trigger] bit(self.black_bb(), i) && bit(self.walls_bb(), i))
        &&& forall|i: int| 0 <= i < 64 && !sq_playable(i) ==> bit(self.walls_bb(), i)
    }

    /// Cell `i` holds a piece of either side.
    pub open spec fn occupied(self, i: int) -> bool {
        bit(self.white_bb(), i) || bit(self.black_bb(), i)
    }

    /// Cell `i` is playable and holds neither a piece nor a block.
    pub open spec fn cell_empty(self, i: int) -> bool {
        &&& sq_playable(i)
        &&& !bit(self.white_bb(), i)
        &&& !bit(self.black_bb(), i)
        &&& !bit(self.walls_bb(), i)
    }

    /// Whose turn it is: the first player on even plies.
    pub open spec fn turn_spec(self) -> Player {
        if self.ply_count() % 2 == 0 {
            Player::White
        } else {
            Player::Black
        }
    }

    /// The occupancy of the side to move.
    pub open spec fn us_bb(self) -> u64 {
        if self.turn_spec() == Player::White {
            self.white_bb()
        } else {
            self.black_bb()
        }
    }

    /// The occupancy of the side not to move.
    pub open spec fn them_bb(self) -> u64 {
        if self.turn_spec() == Player::White {
            self.black_bb()
        } else {
            self.white_bb()
        }
    }

    /// The starting position, as a value.
    pub closed spec fn new_spec() -> Board {
        Board {
            white: (1u64 << 48) | (1u64 << 6),
            black: (1u64 << 0) | (1u64 << 54),
            walls: BB_EDGE,
            ply: 0,
            halfmove: 0,
        }
    }

    /// The fixed starting position: the first player on the a7 and g1
    /// corners of the playable region, the second on a1 and g7.
    pub fn new() -> (r: Board)
        ensures
            r == Board::new_spec(),
            r.wf(),
            r.white_bb() == (1u64 << 48) | (1u64 << 6),
            r.black_bb() == (1u64 << 0) | (1u64 << 54),
            r.walls_bb() == BB_EDGE,
            r.ply_count() == 0,
            r.quiet_count() == 0,
            forall|i: int| 0 <= i < 64 ==> (bit(r.white_bb(), i) <==> i == 48 || i == 6),
            forall|i: int| 0 <= i < 64 ==> (bit(r.black_bb(), i) <==> i == 0 || i == 54),
            forall|i: int| 0 <= i < 64 ==> (bit(r.walls_bb(), i) <==> !sq_playable(i)),
    {
        let r = Board {
            white: (1u64 << 48) | (1u64 << 6),
            black: (1u64 << 0) | (1u64 << 54),
            walls: BB_EDGE,
            ply: 0,
            halfmove: 0,
        };
        proof {
            let w = (1u64 << 48) | (1u64 << 6);
            let b = (1u64 << 0) | (1u64 << 54);
            assert forall|i: int| #[trigger] bit(w, i) <==> (0 <= i < 64 && (i == 48 || i
                == 6)) by {
                if 0 <= i < 64 {
                    lemma_bits_ops(1u64 << 48, 1u64 << 6, i);
                    lemma_single_bit(48, i);
                    lemma_single_bit(6, i);
                }
            }
            assert forall|i: int| #[trigger] bit(b, i) <==> (0 <= i < 64 && (i == 0 || i
                == 54)) by {
                if 0 <= i < 64 {
                    lemma_bits_ops(1u64 << 0, 1u64 << 54, i);
                    lemma_single_bit(0, i);
                    lemma_single_bit(54, i);
                }
            }
            assert forall|i: int| #[trigger] bit(BB_EDGE, i) <==> (0 <= i < 64 && !sq_playable(
                i,
            )) by {
                if 0 <= i < 64 {
                    lemma_mask_bits(i);
                }
            }
            assert(sq_playable(48) && sq_playable(6) && sq_playable(0) && sq_playable(54));
            lemma_playable_only_intro(w);
            lemma_playable_only_intro(b);
        }
        r
    }

    /// The side to move.
    pub fn turn(&self) -> (r: Player)
        ensures
            r == self.turn_spec(),
    {
        if self.ply % 2 == 0 {
            Player::White
        } else {
            Player::Black
        }
    }

    /// The owner of the piece on the given square, if any.
    pub fn player_at(&self, sq: Square) -> (r: Option<Player>)
        requires
            sq.0 < 64,
        ensures
            r == (if bit(self.white_bb(), sq.0 as int) {
                Some(Player::White)
            } else if bit(self.black_bb(), sq.0 as int) {
                Some(Player::Black)
            } else {
                None::<Player>
            }),
    {
        let s = sq.as_set();
        proof {
            lemma_bits_ops(self.white, s, sq.0 as int);
            lemma_bits_ops(self.black, s, sq.0 as int);
            if self.white & s != 0 {
                let t = crate::bits::nonzero_witness(self.white & s);
                lemma_bits_ops(self.white, s, t);
            }
            if self.black & s != 0 {
                let t = crate::bits::nonzero_witness(self.black & s);
                lemma_bits_ops(self.black, s, t);
            }
            if bit(self.white, sq.0 as int) {
                crate::bits::lemma_nonzero_intro(self.white & s, sq.0 as int);
            }
            if bit(self.black, sq.0 as int) {
                crate::bits::lemma_nonzero_intro(self.black & s, sq.0 as int);
            }
        }
        if self.white & s != 0 {
            Some(Player::White)
        } else if self.black & s != 0 {
            Some(Player::Black)
        } else {
            None
        }
    }

    /// Cell `t` is a legal placement destination for the side to move.
    pub open spec fn single_dest(self, t: int) -> bool {
        self.cell_empty(t) && reaches(self.us_bb(), t, 1)
    }

    /// `f` holds a mover piece that may jump to the empty cell `t`, two
    /// rings out.
    pub open spec fn double_pair(self, f: int, t: int) -> bool {
        bit(self.us_bb(), f) && self.cell_empty(t) && chebyshev(f, t) == 2
    }

    /// The single placements whose destination index is below `n`, in
    /// increasing order.
    pub open spec fn singles_upto(self, n: int) -> Seq<Move>
        decreases n,
    {
        if n <= 0 {
            Seq::empty()
        } else {
            let rest = self.singles_upto(n - 1);
            if self.single_dest(n - 1) {
                rest + seq![Move::Single { to: Square((n - 1) as u8) }]
            } else {
                rest
            }
        }
    }

    /// The jumps out of origin `f` whose destination index is below `n`,
    /// in increasing order.
    pub open spec fn doubles_for_upto(self, f: int, n: int) -> Seq<Move>
        decreases n,
    {
        if n <= 0 {
            Seq::empty()
        } else {
            let rest = self.doubles_for_upto(f, n - 1);
            if self.double_pair(f, n - 1) {
                rest + seq![
                    Move::Double { from: Square(f as u8), to: Square((n - 1) as u8) },
                ]
            } else {
                rest
            }
        }
    }

    /// The jumps whose origin index is below `n`, ordered by origin and
    /// then by destination.
    pub open spec fn doubles_upto(self, n: int) -> Seq<Move>
        decreases n,
    {
        if n <= 0 {
            Seq::empty()
        } else {
            self.doubles_upto(n - 1) + self.doubles_for_upto(n - 1, 64)
        }
    }

    /// All single placements for the side to move, in increasing
    /// destination order.
    pub open spec fn singles_seq(self) -> Seq<Move> {
        self.singles_upto(64)
    }

    /// All jumps for the side to move, ordered by origin, then
    /// destination.
    pub open spec fn doubles_seq(self) -> Seq<Move> {
        self.doubles_upto(64)
    }

    /// The legal moves of the side to move: nothing once the game is over;
    /// otherwise all placements, then all jumps, and exactly one pass when
    /// neither exists.
    pub open spec fn legal_moves(self) -> Seq<Move> {
        if self.game_over_spec() {
            Seq::empty()
        } else if self.singles_seq().len() + self.doubles_seq().len() == 0 {
            seq![Move::Pass]
        } else {
            self.singles_seq() + self.doubles_seq()
        }
    }

    /// The board after a move, as the same word computation the executable
    /// code performs; `lemma_apply` states what it does to each cell.
    pub closed spec fn apply_spec(self, mv: Move) -> Board {
        match mv {
            Move::Pass => Board {
                white: self.white,
                black: self.black,
                walls: self.walls,
                ply: (self.ply + 1) as u8,
                halfmove: self.halfmove,
            },
            Move::Single { to } => {
                let t = 1u64 << to.0;
                let flip = expand_spec(t);
                if self.ply % 2 == 0 {
                    let wiped = flip & self.black;
                    Board {
                        white: (self.white ^ t) | wiped,
                        black: self.black ^ wiped,
                        walls: self.walls,
                        ply: (self.ply + 1) as u8,
                        halfmove: 0,
                    }
                } else {
                    let wiped = flip & self.white;
                    Board {
                        white: self.white ^ wiped,
                        black: (self.black ^ t) | wiped,
                        walls: self.walls,
                        ply: (self.ply + 1) as u8,
                        halfmove: 0,
                    }
                }
            },
            Move::Double { from, to } => {
                let ft = (1u64 << from.0) | (1u64 << to.0);
                let flip = expand_spec(1u64 << to.0);
                if self.ply % 2 == 0 {
                    let wiped = flip & self.black;
                    Board {
                        white: (self.white ^ ft) | wiped,
                        black: self.black ^ wiped,
                        walls: self.walls,
                        ply: (self.ply + 1) as u8,
                        halfmove: (self.halfmove + 1) as u8,
                    }
                } else {
                    let wiped = flip & self.white;
                    Board {
                        white: self.white ^ wiped,
                        black: (self.black ^ ft) | wiped,
                        walls: self.walls,
                        ply: (self.ply + 1) as u8,
                        halfmove: (self.halfmove + 1) as u8,
                    }
                }
            },
        }
    }

    /// No playable cell is empty.
    pub open spec fn board_full_spec(self) -> bool {
        forall|i: int| !self.cell_empty(i)
    }

    /// No empty cell lies within two rings of any occupied cell, of either
    /// side: neither side has a placement or a jump.
    pub open spec fn immobile_spec(self) -> bool {
        forall|i: int|
            self.cell_empty(i) ==> !(exists|j: int| self.occupied(j) && chebyshev(j, i) <= 2)
    }

    /// The game is over: a side was eliminated, the board is full, the
    /// quiet-move limit was reached, or both sides are immobile at once.
    pub open spec fn game_over_spec(self) -> bool {
        ||| self.white_bb() == 0
        ||| self.black_bb() == 0
        ||| self.board_full_spec()
        ||| self.quiet_count() >= QUIET_LIMIT
        ||| self.immobile_spec()
    }

    /// The outcome: `None` while the game runs, then a tie or the side
    /// with strictly more pieces.
    pub open spec fn outcome_spec(self) -> Option<Option<Player>> {
        if !self.game_over_spec() {
            None
        } else if count_bits(self.white_bb()) < count_bits(self.black_bb()) {
            Some(Some(Player::Black))
        } else if count_bits(self.white_bb()) == count_bits(self.black_bb()) {
            Some(None)
        } else {
            Some(Some(Player::White))
        }
    }

    /// Whether the game has ended, by elimination, board fill, the
    /// quiet-move limit, or joint immobility.
    pub fn game_over(&self) -> (r: bool)
        requires
            self.wf(),
        ensures
            r == self.game_over_spec(),
    {
        let occ = self.white | self.black;
        let empties = !(occ | self.walls);
        let e2 = expand(expand(occ));
        let blocked = e2 & empties;
        proof {
            assert forall|i: int| #[trigger] bit(empties, i) == self.cell_empty(i) by {
                if 0 <= i < 64 {
                    lemma_bits_ops(self.white, self.black, i);
                    lemma_bits_ops(occ, self.walls, i);
                    lemma_bits_ops(occ | self.walls, 0, i);
                    assert(bit(!(occ | self.walls), i) == !bit(occ | self.walls, i));
                }
            }
            assert forall|i: int| #[trigger] bit(occ, i) == self.occupied(i) by {
                if 0 <= i < 64 {
                    lemma_bits_ops(self.white, self.black, i);
                }
            }
            lemma_playable_only_bits(self.white);
            lemma_playable_only_bits(self.black);
            lemma_playable_only_intro(occ);
            assert forall|i: int| #[trigger] bit(blocked, i) == (self.cell_empty(i) && reaches(
                occ,
                i,
                2,
            )) by {
                if 0 <= i < 64 {
                    lemma_expand2_sem(occ, i);
                    lemma_bits_ops(e2, empties, i);
                }
            }
            // The empties word is zero exactly when the board is full.
            if empties == 0 {
                assert forall|i: int| !self.cell_empty(i) by {
                    if 0 <= i < 64 {
                        assert(bit(empties, i) == self.cell_empty(i));
                        lemma_bits_ops(0, 0, i);
                    }
                }
            } else {
                let t = crate::bits::nonzero_witness(empties);
                assert(self.cell_empty(t));
            }
            // The blocked word is zero exactly when both sides are stuck.
            if blocked == 0 {
                assert forall|i: int| self.cell_empty(i) implies !(exists|j: int|
                    self.occupied(j) && chebyshev(j, i) <= 2) by {
                    if exists|j: int| self.occupied(j) && chebyshev(j, i) <= 2 {
                        let j = choose|j: int| self.occupied(j) && chebyshev(j, i) <= 2;
                        assert(bit(occ, j));
                        assert(reaches(occ, i, 2));
                        assert(bit(blocked, i));
                        lemma_bits_ops(0, 0, i);
                    }
                }
            } else {
                let t = crate::bits::nonzero_witness(blocked);
                let j = choose|j: int| bit(occ, j) && chebyshev(j, t) <= 2;
                assert(self.occupied(j) && chebyshev(j, t) <= 2);
                assert(!self.immobile_spec());
            }
        }
        self.white == 0 || self.black == 0 || empties == 0 || self.halfmove >= QUIET_LIMIT
            || blocked == 0
    }

    /// The outcome: `None` while the game runs; once it is over, the side
    /// with strictly more pieces wins, equal counts tie.
    pub fn outcome(&self) -> (r: Option<Option<Player>>)
        requires
            self.wf(),
        ensures
            r == self.outcome_spec(),
    {
        if !self.game_over() {
            return None;
        }
        let cw = popcount(self.white);
        let cb = popcount(self.black);
        if cw < cb {
            Some(Some(Player::Black))
        } else if cw == cb {
            Some(None)
        } else {
            Some(Some(Player::White))
        }
    }

    /// Apply a move produced by the generator: place or jump, flip every
    /// opponent piece within one ring of the destination, update the quiet
    /// counter, and advance the ply.
    pub fn make_move(&mut self, mv: Move)
        requires
            old(self).wf(),
            old(self).legal_moves().contains(mv),
            old(self).ply_count() < 255,
        ensures
            final(self).wf(),
            *final(self) == old(self).apply_spec(mv),
            move_applied(*old(self), *final(self), mv),
    {
        proof {
            lemma_contained_move_legal(*old(self), mv);
            lemma_apply(*old(self), mv);
        }
        match mv {
            Move::Pass => {},
            Move::Single { to } => {
                self.halfmove = 0;
                let t = to.as_set();
                let flip_zone = expand(t);
                if self.turn() == Player::White {
                    self.white = self.white ^ t;
                    let wiped_out = flip_zone & self.black;
                    self.black = self.black ^ wiped_out;
                    self.white = self.white | wiped_out;
                } else {
                    self.black = self.black ^ t;
                    let wiped_out = flip_zone & self.white;
                    self.white = self.white ^ wiped_out;
                    self.black = self.black | wiped_out;
                }
            },
            Move::Double { from, to } => {
                self.halfmove = self.halfmove + 1;
                let from_set = from.as_set();
                let to_set = to.as_set();
                let flip_zone = expand(to_set);
                if self.turn() == Player::White {
                    self.white = self.white ^ (from_set | to_set);
                    let wiped_out = flip_zone & self.black;
                    self.black = self.black ^ wiped_out;
                    self.white = self.white | wiped_out;
                } else {
                    self.black = self.black ^ (from_set | to_set);
                    let wiped_out = flip_zone & self.white;
                    self.white = self.white ^ wiped_out;
                    self.black = self.black | wiped_out;
                }
            },
        }
        self.ply = self.ply + 1;
        proof {
            assert(*self == old(self).apply_spec(mv));
        }
    }

    /// Enumerate the legal moves of the side to move: every single
    /// placement in increasing destination order, then every jump ordered
    /// by origin and then destination, and exactly one pass when no other
    /// move exists.  A finished game yields nothing.
    pub fn generate_moves(&self) -> (r: Vec<Move>)
        requires
            self.wf(),
        ensures
            r@ == self.legal_moves(),
    {
        let mut v: Vec<Move> = Vec::new();
        if self.game_over() {
            return v;
        }
        let turn_white = self.ply % 2 == 0;
        let us = if turn_white {
            self.white
        } else {
            self.black
        };
        let them = if turn_white {
            self.black
        } else {
            self.white
        };
        let empty = !(us | them | self.walls);
        let singles = expand(us) & empty;
        proof {
            assert(us == self.us_bb() && them == self.them_bb());
            lemma_singles_word(*self, us, them, empty, singles);
        }
        let mut i: u64 = 0;
        while i < 64
            invariant
                i <= 64,
                v@ == self.singles_upto(i as int),
                forall|k: int| 0 <= k < 64 ==> #[trigger] bit(singles, k) == self.single_dest(k),
            decreases 64 - i,
        {
            proof {
                assert(bit(singles, i as int) == self.single_dest(i as int));
            }
            if (singles >> i) & 1u64 == 1u64 {
                v.push(Move::Single { to: Square(i as u8) });
            }
            proof {
                assert(v@ == self.singles_upto(i as int + 1));
            }
            i = i + 1;
        }
        proof {
            assert(v@ == self.singles_seq());
        }
        let mut f: u64 = 0;
        while f < 64
            invariant
                f <= 64,
                self.wf(),
                us == self.us_bb(),
                them == self.them_bb(),
                empty == !(us | them | self.walls),
                v@ == self.singles_seq() + self.doubles_upto(f as int),
            decreases 64 - f,
        {
            if (us >> f) & 1u64 == 1u64 {
                let local = expand(1u64 << f);
                let tgts = expand(local) & empty & !local;
                proof {
                    assert(bit(us, f as int));
                    lemma_doubles_word(*self, us, them, empty, f, tgts);
                }
                let mut t: u64 = 0;
                while t < 64
                    invariant
                        t <= 64,
                        f < 64,
                        v@ == self.singles_seq() + self.doubles_upto(f as int)
                            + self.doubles_for_upto(f as int, t as int),
                        forall|k: int|
                            0 <= k < 64 ==> #[trigger] bit(tgts, k) == self.double_pair(
                                f as int,
                                k,
                            ),
                    decreases 64 - t,
                {
                    proof {
                        assert(bit(tgts, t as int) == self.double_pair(f as int, t as int));
                    }
                    if (tgts >> t) & 1u64 == 1u64 {
                        v.push(Move::Double { from: Square(f as u8), to: Square(t as u8) });
                    }
                    proof {
                        assert(v@ =~= self.singles_seq() + self.doubles_upto(f as int)
                            + self.doubles_for_upto(f as int, t as int + 1));
                    }
                    t = t + 1;
                }
                proof {
                    assert(v@ =~= self.singles_seq() + self.doubles_upto(f as int + 1));
                }
            } else {
                proof {
                    assert(!bit(self.us_bb(), f as int));
                    lemma_doubles_for_empty(*self, f as int, 64);
                    assert(v@ =~= self.singles_seq() + self.doubles_upto(f as int + 1));
                }
            }
            f = f + 1;
        }
        if v.len() == 0 {
            proof {
                assert(self.singles_seq().len() + self.doubles_seq().len() == 0);
            }
            v.push(Move::Pass);
            proof {
                assert(v@ =~= seq![Move::Pass]);
            }
        }
        v
    }

    /// The move that an index into the enumeration order selects: the
    /// forced pass when nothing else exists, else the indexed list entry.
    pub open spec fn chosen_move(self, choice: int) -> Move {
        if self.singles_seq().len() + self.doubles_seq().len() == 0 {
            Move::Pass
        } else {
            self.legal_moves()[choice]
        }
    }

    /// Apply the move with the given index in the enumeration order,
    /// found by walking the bitboards directly rather than materializing
    /// the move list.  On a finished board nothing happens; when only the
    /// forced pass exists it is applied whatever the index.
    pub fn make_random_move(&mut self, choice: usize)
        requires
            old(self).wf(),
            old(self).ply_count() < 255,
            !old(self).game_over_spec() ==> old(self).singles_seq().len()
                + old(self).doubles_seq().len() == 0 || (choice as int) < old(
                self,
            ).singles_seq().len() + old(self).doubles_seq().len(),
        ensures
            old(self).game_over_spec() ==> *final(self) == *old(self),
            !old(self).game_over_spec() ==> final(self).wf() && *final(self) == old(
                self,
            ).apply_spec(old(self).chosen_move(choice as int)),
    {
        if self.game_over() {
            return ;
        }
        let ghost b = *self;
        let turn_white = self.ply % 2 == 0;
        let us = if turn_white {
            self.white
        } else {
            self.black
        };
        let them = if turn_white {
            self.black
        } else {
            self.white
        };
        let empty = !(us | them | self.walls);
        let singles_w = expand(us) & empty;
        proof {
            lemma_singles_word(b, us, them, empty, singles_w);
            lemma_singles_count(b, singles_w, 64);
        }
        let scnt = popcount(singles_w);
        let mut dcnt: u64 = 0;
        let mut f: u64 = 0;
        while f < 64
            invariant
                f <= 64,
                *self == b,
                b.wf(),
                us == b.us_bb(),
                them == b.them_bb(),
                empty == !(us | them | b.walls_bb()),
                dcnt == b.doubles_upto(f as int).len(),
            decreases 64 - f,
        {
            proof {
                lemma_doubles_len(b, f as int);
            }
            if (us >> f) & 1u64 == 1u64 {
                let local = expand(1u64 << f);
                let tgts = expand(local) & empty & !local;
                proof {
                    assert(bit(us, f as int));
                    lemma_doubles_word(b, us, them, empty, f, tgts);
                    lemma_doubles_for_count(b, f as int, tgts, 64);
                    crate::bits::lemma_popcount_bound(tgts, 64);
                }
                dcnt = dcnt + popcount(tgts) as u64;
            } else {
                proof {
                    assert(!bit(b.us_bb(), f as int));
                    lemma_doubles_for_empty(b, f as int, 64);
                    assert(b.doubles_upto(f as int + 1).len() == b.doubles_upto(f as int).len());
                }
            }
            f = f + 1;
        }
        proof {
            assert(b.singles_seq().len() == scnt);
            assert(b.doubles_seq().len() == dcnt);
        }
        if scnt == 0 && dcnt == 0 {
            proof {
                assert(b.legal_moves() == seq![Move::Pass]);
                assert(b.legal_moves()[0] == Move::Pass);
                assert(b.legal_moves().contains(Move::Pass));
            }
            self.make_move(Move::Pass);
            return ;
        }
        proof {
            assert(b.legal_moves() == b.singles_seq() + b.doubles_seq());
        }
        if (choice as u64) < scnt as u64 {
            let idx = crate::bits::nth_set_bit(singles_w, choice as u32);
            proof {
                lemma_singles_count(b, singles_w, idx as int);
                lemma_singles_index(b, idx as int);
                assert(b.legal_moves()[choice as int] == (Move::Single {
                    to: Square(idx as u8),
                }));
                assert(b.legal_moves().contains(b.legal_moves()[choice as int]));
            }
            self.make_move(Move::Single { to: Square::new(idx as u8) });
            return ;
        }
        let mut rem: u64 = choice as u64 - scnt as u64;
        let mut f2: u64 = 0;
        while f2 < 64
            invariant
                f2 <= 64,
                *self == b,
                b == *old(self),
                b.wf(),
                b.ply_count() < 255,
                us == b.us_bb(),
                them == b.them_bb(),
                empty == !(us | them | b.walls_bb()),
                !b.game_over_spec(),
                b.legal_moves() == b.singles_seq() + b.doubles_seq(),
                b.singles_seq().len() == scnt,
                b.doubles_seq().len() == dcnt,
                (scnt as int) <= (choice as int),
                (choice as int) < (scnt as int) + (dcnt as int),
                rem == choice as int - scnt - b.doubles_upto(f2 as int).len(),
                b.doubles_upto(f2 as int).len() <= choice as int - scnt,
            decreases 64 - f2,
        {
            if (us >> f2) & 1u64 == 1u64 {
                let local = expand(1u64 << f2);
                let tgts = expand(local) & empty & !local;
                proof {
                    assert(bit(us, f2 as int));
                    lemma_doubles_word(b, us, them, empty, f2, tgts);
                    lemma_doubles_for_count(b, f2 as int, tgts, 64);
                    crate::bits::lemma_popcount_bound(tgts, 64);
                }
                let tcnt = popcount(tgts);
                if rem < tcnt as u64 {
                    let idx = crate::bits::nth_set_bit(tgts, rem as u32);
                    proof {
                        lemma_doubles_for_count(b, f2 as int, tgts, idx as int);
                        lemma_doubles_index(b, f2 as int, idx as int);
                        assert(b.doubles_seq()[choice as int - scnt] == (Move::Double {
                            from: Square(f2 as u8),
                            to: Square(idx as u8),
                        }));
                        assert(b.legal_moves()[choice as int] == b.doubles_seq()[choice as int
                            - scnt]);
                        assert(b.legal_moves().contains(b.legal_moves()[choice as int]));
                    }
                    self.make_move(
                        Move::Double { from: Square::new(f2 as u8), to: Square::new(idx as u8) },
                    );
                    return ;
                }
                rem = rem - tcnt as u64;
                proof {
                    assert(b.doubles_upto(f2 as int + 1) == b.doubles_upto(f2 as int)
                        + b.doubles_for_upto(f2 as int, 64));
                }
            } else {
                proof {
                    assert(!bit(b.us_bb(), f2 as int));
                    lemma_doubles_for_empty(b, f2 as int, 64);
                    assert(b.doubles_upto(f2 as int + 1).len() == b.doubles_upto(
                        f2 as int,
                    ).len());
                }
            }
            f2 = f2 + 1;
        }
        proof {
            assert(false);
        }
    }

    /// The dense feature indices the board exports: every mover cell,
    /// then every opponent cell shifted by one block of 49, then every
    /// playable blocked cell shifted by two.
    pub open spec fn feature_seq(self) -> Seq<usize> {
        feats_upto(self.us_bb(), 64, 0) + feats_upto(self.them_bb(), 64, 49) + feats_upto(
            self.walls_bb() & BB_ALL,
            64,
            98,
        )
    }

    /// Export the position as dense feature indices, all below three
    /// blocks of 49: the mover's cells, the opponent's cells one block up,
    /// and the playable blocked cells two blocks up.
    pub fn feature_map(&self) -> (r: Vec<usize>)
        requires
            self.wf(),
        ensures
            r@ == self.feature_seq(),
            forall|k: int| 0 <= k < r@.len() ==> #[trigger] r@[k] < 147,
    {
        let turn_white = self.ply % 2 == 0;
        let us = if turn_white {
            self.white
        } else {
            self.black
        };
        let them = if turn_white {
            self.black
        } else {
            self.white
        };
        let inner_walls = self.walls & BB_ALL;
        proof {
            assert(us == self.us_bb() && them == self.them_bb());
            lemma_playable_only_bits(self.white);
            lemma_playable_only_bits(self.black);
            assert forall|i: int| #[trigger] bit(us, i) implies sq_playable(i) by {}
            assert forall|i: int| #[trigger] bit(them, i) implies sq_playable(i) by {}
            assert forall|i: int| #[trigger] bit(inner_walls, i) implies (bit(self.walls_bb(), i)
                && sq_playable(i)) by {
                if 0 <= i < 64 {
                    lemma_bits_ops(self.walls, BB_ALL, i);
                    lemma_mask_bits(i);
                }
            }
        }
        let mut r: Vec<usize> = Vec::new();
        let mut i: u64 = 0;
        while i < 64
            invariant
                i <= 64,
                playable_only(us),
                r@ == feats_upto(us, i as int, 0),
                forall|k: int| 0 <= k < r@.len() ==> #[trigger] r@[k] < 147,
            decreases 64 - i,
        {
            if (us >> i) & 1u64 == 1u64 {
                proof {
                    assert(bit(us, i as int));
                    lemma_playable_only_bits(us);
                }
                let sq = Square::new(i as u8);
                r.push(sq.compressed_index());
            }
            i = i + 1;
        }
        let ghost first = r@;
        let mut i: u64 = 0;
        while i < 64
            invariant
                i <= 64,
                playable_only(them),
                r@ == first + feats_upto(them, i as int, 49),
                forall|k: int| 0 <= k < r@.len() ==> #[trigger] r@[k] < 147,
            decreases 64 - i,
        {
            proof {
                assert(r@ =~= first + feats_upto(them, i as int, 49));
            }
            if (them >> i) & 1u64 == 1u64 {
                proof {
                    assert(bit(them, i as int));
                    lemma_playable_only_bits(them);
                }
                let sq = Square::new(i as u8);
                r.push(sq.compressed_index() + 49);
                proof {
                    assert(r@ =~= first + feats_upto(them, i as int + 1, 49));
                }
            }
            i = i + 1;
        }
        let ghost second = r@;
        let mut i: u64 = 0;
        while i < 64
            invariant
                i <= 64,
                forall|j: int| #[trigger] bit(inner_walls, j) ==> sq_playable(j),
                r@ == second + feats_upto(inner_walls, i as int, 98),
                forall|k: int| 0 <= k < r@.len() ==> #[trigger] r@[k] < 147,
            decreases 64 - i,
        {
            if (inner_walls >> i) & 1u64 == 1u64 {
                proof {
                    assert(bit(inner_walls, i as int));
                }
                let sq = Square::new(i as u8);
                r.push(sq.compressed_index() + 98);
                proof {
                    assert(r@ =~= second + feats_upto(inner_walls, i as int + 1, 98));
                }
            }
            i = i + 1;
        }
        proof {
            assert(r@ =~= self.feature_seq());
        }
        r
    }

    /// The record string this board denotes.
    pub open spec fn fen_spec(self) -> Seq<char> {
        crate::fen::fen_string_spec(
            self.white_bb(),
            self.black_bb(),
            self.walls_bb(),
            self.ply_count(),
            self.quiet_count(),
        )
    }

    /// Write the position as a record string: seven run-length-encoded
    /// rank fields, the side to move, the quiet counter and the full-move
    /// counter.
    pub fn fen(&self) -> (r: String)
        ensures
            r@ == self.fen_spec(),
    {
        crate::fen::encode_fields(self.white, self.black, self.walls, self.ply, self.halfmove)
    }

    /// Replace this board with the position a record string denotes; on a
    /// malformed record the board is left unchanged and the exact reason
    /// is returned.
    pub fn reset_from_fen(&mut self, fen: &str) -> (r: Result<(), crate::fen::FenError>)
        ensures
            match crate::fen::parse_fen_spec(fen@) {
                Ok(t) => r is Ok && *final(self) == Board::mk_spec(t.0, t.1, t.2, t.3, t.4)
                    && final(self).wf(),
                Err(e) => r == Err::<(), crate::fen::FenError>(e) && *final(self) == *old(self),
            },
    {
        match crate::fen::parse_fields(fen) {
            Ok(t) => {
                self.white = t.0;
                self.black = t.1;
                self.walls = t.2;
                self.ply = t.3;
                self.halfmove = t.4;
                Ok(())
            },
            Err(e) => Err(e),
        }
    }

    /// The four characters drawn for one cell of the text grid: a framed
    /// block, piece, or blank.
    pub open spec fn cell_text(self, r: int, f: int) -> Seq<char> {
        if bit(self.walls_bb(), 8 * r + f) {
            " | -"@
        } else if bit(self.white_bb(), 8 * r + f) {
            " | x"@
        } else if bit(self.black_bb(), 8 * r + f) {
            " | o"@
        } else {
            " |  "@
        }
    }

    /// The drawn cells of rank `r` from file `f` on.
    pub open spec fn render_cells(self, r: int, f: int) -> Seq<char>
        decreases 7 - f,
    {
        if f < 0 || f >= 7 {
            Seq::empty()
        } else {
            self.cell_text(r, f) + self.render_cells(r, f + 1)
        }
    }

    /// The first `k` drawn rows, from rank 7 of the grid downward: a frame
    /// line, the cells, a closing frame and the rank label.
    pub open spec fn render_rows(self, k: int) -> Seq<char>
        decreases k,
    {
        if k <= 0 {
            Seq::empty()
        } else {
            self.render_rows(k - 1) + " +---+---+---+---+---+---+---+\n"@ + self.render_cells(
                7 - k,
                0,
            ) + " | "@ + seq![crate::square::rank_char(7 - k)] + "\n"@
        }
    }

    /// The whole text picture: seven framed rows, the file labels, and
    /// whose move it is.
    pub open spec fn render_spec(self) -> Seq<char> {
        self.render_rows(7) + " +---+---+---+---+---+---+---+\n"@
            + "   a   b   c   d   e   f   g\n"@ + "\n"@ + (if self.turn_spec() == Player::White {
            "White to move"@
        } else {
            "Black to move"@
        })
    }

    /// Draw the board as a text grid with rank and file labels, the way a
    /// person would read it, ending with whose move it is.
    pub fn render(&self) -> (r: String)
        ensures
            r@ == self.render_spec(),
    {
        let mut s = String::new();
        let mut k: u8 = 0;
        while k < 7
            invariant
                k <= 7,
                s@ == self.render_rows(k as int),
            decreases 7 - k,
        {
            let r: u8 = 6 - k;
            s.append(" +---+---+---+---+---+---+---+\n");
            let ghost row_start = s@;
            let mut f: u8 = 0;
            while f < 7
                invariant
                    f <= 7,
                    r == 6 - k,
                    k < 7,
                    s@ + self.render_cells(r as int, f as int) == row_start + self.render_cells(
                        r as int,
                        0,
                    ),
                decreases 7 - f,
            {
                let sq: u8 = 8 * r + f;
                let ghost f0 = f as int;
                if (self.walls >> sq) & 1u64 == 1u64 {
                    s.append(" | -");
                } else if (self.white >> sq) & 1u64 == 1u64 {
                    s.append(" | x");
                } else if (self.black >> sq) & 1u64 == 1u64 {
                    s.append(" | o");
                } else {
                    s.append(" |  ");
                }
                f = f + 1;
                proof {
                    assert(self.render_cells(r as int, f0) == self.cell_text(r as int, f0)
                        + self.render_cells(r as int, f0 + 1));
                    assert(s@ + self.render_cells(r as int, f as int) =~= row_start
                        + self.render_cells(r as int, 0));
                }
            }
            s.append(" | ");
            s.append(crate::square::rank_str(r));
            s.append("\n");
            proof {
                assert(self.render_cells(r as int, 7) == Seq::<char>::empty());
                assert(s@ =~= self.render_rows(k as int + 1));
            }
            k = k + 1;
        }
        s.append(" +---+---+---+---+---+---+---+\n");
        s.append("   a   b   c   d   e   f   g\n");
        s.append("\n");
        if self.ply % 2 == 0 {
            s.append("White to move");
        } else {
            s.append("Black to move");
        }
        proof {
            assert(s@ =~= self.render_spec());
        }
        s
    }

    /// Whether the given square is permanently blocked.
    pub fn wall_at(&self, sq: Square) -> (r: bool)
        requires
            sq.0 < 64,
        ensures
            r == bit(self.walls_bb(), sq.0 as int),
    {
        let s = sq.as_set();
        proof {
            lemma_bits_ops(self.walls, s, sq.0 as int);
            if self.walls & s != 0 {
                let t = crate::bits::nonzero_witness(self.walls & s);
                lemma_bits_ops(self.walls, s, t);
            }
            if bit(self.walls, sq.0 as int) {
                crate::bits::lemma_nonzero_intro(self.walls & s, sq.0 as int);
            }
        }
        self.walls & s != 0
    }
}

/// The move is one the board's generator would produce: a placement onto a
/// reachable empty cell, a jump between a mover piece and an empty cell two
/// rings out, or a pass when nothing else exists and the game runs on.
pub open spec fn move_legal(b: Board, mv: Move) -> bool {
    match mv {
        Move::Single { to } => b.single_dest(to.0 as int),
        Move::Double { from, to } => b.double_pair(from.0 as int, to.0 as int),
        Move::Pass => !b.game_over_spec() && b.singles_seq().len() + b.doubles_seq().len() == 0,
    }
}

/// The capture step, cell by cell, over plain words: the mover keeps its
/// pieces (minus a cleared jump origin), gains the destination, and gains
/// every opponent piece within one ring of it; the opponent keeps exactly
/// its pieces beyond that ring.
pub open spec fn capture_cells(
    us0: u64,
    them0: u64,
    us1: u64,
    them1: u64,
    clear: Option<int>,
    to: int,
) -> bool {
    &&& forall|i: int|
        0 <= i < 64 ==> ((#[trigger] bit(us1, i)) <==> ((bit(us0, i) && clear != Some(i)) || i
            == to || (bit(them0, i) && chebyshev(to, i) <= 1)))
    &&& forall|i: int|
        0 <= i < 64 ==> ((#[trigger] bit(them1, i)) <==> (bit(them0, i) && chebyshev(to, i) > 1))
}

/// What a placement or jump does to the two occupancies, with the mover's
/// side chosen by whose turn it was.
pub open spec fn placement_applied(pre: Board, post: Board, clear: Option<int>, to: int) -> bool {
    if pre.turn_spec() == Player::White {
        capture_cells(pre.white_bb(), pre.black_bb(), post.white_bb(), post.black_bb(), clear, to)
    } else {
        capture_cells(pre.black_bb(), pre.white_bb(), post.black_bb(), post.white_bb(), clear, to)
    }
}

/// What applying a move does to a board: blocked cells never change, the
/// ply advances, a pass changes nothing else, a placement resets the quiet
/// counter, a jump increments it, and both run the capture step around the
/// destination.
pub open spec fn move_applied(pre: Board, post: Board, mv: Move) -> bool {
    &&& post.walls_bb() == pre.walls_bb()
    &&& post.ply_count() as int == pre.ply_count() as int + 1
    &&& match mv {
        Move::Pass => post.white_bb() == pre.white_bb() && post.black_bb() == pre.black_bb()
            && post.quiet_count() == pre.quiet_count(),
        Move::Single { to } => post.quiet_count() == 0 && placement_applied(
            pre,
            post,
            None,
            to.0 as int,
        ),
        Move::Double { from, to } => post.quiet_count() as int == pre.quiet_count() as int + 1
            && placement_applied(pre, post, Some(from.0 as int), to.0 as int),
    }
}

/// Every member of the placement list is a legal placement.
proof fn lemma_singles_members(b: Board, n: int)
    requires
        n <= 64,
    ensures
        forall|k: int|
            0 <= k < b.singles_upto(n).len() ==> move_legal(b, #[trigger] b.singles_upto(n)[k]),
    decreases n,
{
    if n > 0 {
        lemma_singles_members(b, n - 1);
        let s = b.singles_upto(n);
        let r = b.singles_upto(n - 1);
        assert forall|k: int| 0 <= k < s.len() implies move_legal(b, #[trigger] s[k]) by {
            if b.single_dest(n - 1) {
                let m = Move::Single { to: Square((n - 1) as u8) };
                assert(s == r + seq![m]);
                if k < r.len() {
                    assert(s[k] == r[k]);
                } else {
                    assert(s[k] == m);
                    assert(Square((n - 1) as u8).0 as int == n - 1);
                }
            } else {
                assert(s == r);
            }
        }
    }
}

/// Every member of an origin's jump list is a legal jump.
proof fn lemma_doubles_for_members(b: Board, f: int, n: int)
    requires
        0 <= f < 64,
        n <= 64,
    ensures
        forall|k: int|
            0 <= k < b.doubles_for_upto(f, n).len() ==> move_legal(
                b,
                #[trigger] b.doubles_for_upto(f, n)[k],
            ),
    decreases n,
{
    if n > 0 {
        lemma_doubles_for_members(b, f, n - 1);
        let s = b.doubles_for_upto(f, n);
        let r = b.doubles_for_upto(f, n - 1);
        assert forall|k: int| 0 <= k < s.len() implies move_legal(b, #[trigger] s[k]) by {
            if b.double_pair(f, n - 1) {
                let m = Move::Double { from: Square(f as u8), to: Square((n - 1) as u8) };
                assert(s == r + seq![m]);
                if k < r.len() {
                    assert(s[k] == r[k]);
                } else {
                    assert(s[k] == m);
                    assert(Square(f as u8).0 as int == f);
                    assert(Square((n - 1) as u8).0 as int == n - 1);
                }
            } else {
                assert(s == r);
            }
        }
    }
}

/// Every member of the jump list is a legal jump.
proof fn lemma_doubles_members(b: Board, n: int)
    requires
        n <= 64,
    ensures
        forall|k: int|
            0 <= k < b.doubles_upto(n).len() ==> move_legal(b, #[trigger] b.doubles_upto(n)[k]),
    decreases n,
{
    if n > 0 {
        lemma_doubles_members(b, n - 1);
        lemma_doubles_for_members(b, n - 1, 64);
        let s = b.doubles_upto(n);
        let r = b.doubles_upto(n - 1);
        let d = b.doubles_for_upto(n - 1, 64);
        assert forall|k: int| 0 <= k < s.len() implies move_legal(b, #[trigger] s[k]) by {
            assert(s == r + d);
            if k < r.len() {
                assert(s[k] == r[k]);
            } else {
                assert(s[k] == d[k - r.len()]);
            }
        }
    }
}

/// Every move the generator lists is legal, and none is listed once the
/// game is over.
pub proof fn lemma_legal_moves_members(b: Board)
    ensures
        forall|k: int|
            0 <= k < b.legal_moves().len() ==> move_legal(b, #[trigger] b.legal_moves()[k]),
        b.legal_moves().len() > 0 ==> !b.game_over_spec(),
{
    lemma_singles_members(b, 64);
    lemma_doubles_members(b, 64);
}

/// A move the generator lists is legal.
pub proof fn lemma_contained_move_legal(b: Board, mv: Move)
    requires
        b.legal_moves().contains(mv),
    ensures
        move_legal(b, mv),
        !b.game_over_spec(),
{
    lemma_legal_moves_members(b);
    let k = choose|k: int| 0 <= k < b.legal_moves().len() && b.legal_moves()[k] == mv;
}

/// The capture-step word computation, read cell by cell.
proof fn lemma_flip_cells(us0: u64, them0: u64, mask: u64, to: int, clear: Option<int>)
    requires
        playable_only(them0),
        sq_playable(to),
        !bit(us0, to),
        !bit(them0, to),
        forall|i: int| 0 <= i < 64 ==> (#[trigger] bit(mask, i) <==> (i == to || clear == Some(i))),
        clear matches Some(f) ==> 0 <= f < 64 && bit(us0, f) && f != to,
        clear matches Some(f) ==> !bit(them0, f),
    ensures
        capture_cells(
            us0,
            them0,
            (us0 ^ mask) | (expand_spec(1u64 << (to as u64)) & them0),
            them0 ^ (expand_spec(1u64 << (to as u64)) & them0),
            clear,
            to,
        ),
{
    let t = 1u64 << (to as u64);
    let flip = expand_spec(t);
    let wiped = flip & them0;
    lemma_single_bit(to as u64, to);
    lemma_playable_only_bits(them0);
    assert forall|i: int| 0 <= i < 64 implies (#[trigger] bit(flip, i) <==> (sq_playable(i)
        && chebyshev(to, i) <= 1)) by {
        lemma_expand_sem(t, i);
        crate::bits::lemma_reaches_single(to as u64, i, 1);
    }
    assert forall|i: int| 0 <= i < 64 implies (#[trigger] bit((us0 ^ mask) | wiped, i) <==> ((bit(
        us0,
        i,
    ) && clear != Some(i)) || i == to || (bit(them0, i) && chebyshev(to, i) <= 1))) by {
        lemma_bits_ops(us0, mask, i);
        lemma_bits_ops(us0 ^ mask, wiped, i);
        lemma_bits_ops(flip, them0, i);
        assert(bit(mask, i) <==> (i == to || clear == Some(i)));
        if bit(them0, i) {
            assert(sq_playable(i));
        }
        assert(chebyshev(to, to) == 0);
    }
    assert forall|i: int| 0 <= i < 64 implies (#[trigger] bit(them0 ^ wiped, i) <==> (bit(them0, i)
        && chebyshev(to, i) > 1)) by {
        lemma_bits_ops(them0, wiped, i);
        lemma_bits_ops(flip, them0, i);
        if bit(them0, i) {
            assert(sq_playable(i));
        }
    }
}

/// A legally applied move leaves a well-formed board.
proof fn lemma_move_wf(pre: Board, post: Board, mv: Move)
    requires
        pre.wf(),
        move_legal(pre, mv),
        move_applied(pre, post, mv),
    ensures
        post.wf(),
{
    match mv {
        Move::Pass => {},
        Move::Single { to } => {
            lemma_placement_wf(pre, post, None, to.0 as int);
        },
        Move::Double { from, to } => {
            lemma_placement_wf(pre, post, Some(from.0 as int), to.0 as int);
        },
    }
}

/// The capture step preserves well-formedness.
proof fn lemma_placement_wf(pre: Board, post: Board, clear: Option<int>, to: int)
    requires
        pre.wf(),
        sq_playable(to),
        pre.cell_empty(to),
        placement_applied(pre, post, clear, to),
        post.walls_bb() == pre.walls_bb(),
    ensures
        post.wf(),
{
    if pre.turn_spec() == Player::White {
        lemma_capture_wf(
            pre.white_bb(),
            pre.black_bb(),
            post.white_bb(),
            post.black_bb(),
            pre.walls_bb(),
            clear,
            to,
        );
    } else {
        lemma_capture_wf(
            pre.black_bb(),
            pre.white_bb(),
            post.black_bb(),
            post.white_bb(),
            pre.walls_bb(),
            clear,
            to,
        );
    }
}

/// The capture step, over plain words, keeps occupancies playable and the
/// three cell sets disjoint.
proof fn lemma_capture_wf(
    us0: u64,
    them0: u64,
    us1: u64,
    them1: u64,
    walls: u64,
    clear: Option<int>,
    to: int,
)
    requires
        playable_only(us0),
        playable_only(them0),
        forall|i: int| !(#[trigger] bit(us0, i) && bit(them0, i)),
        forall|i: int| !(#[trigger] bit(us0, i) && bit(walls, i)),
        forall|i: int| !(#[trigger] bit(them0, i) && bit(walls, i)),
        sq_playable(to),
        !bit(us0, to),
        !bit(them0, to),
        !bit(walls, to),
        capture_cells(us0, them0, us1, them1, clear, to),
    ensures
        playable_only(us1),
        playable_only(them1),
        forall|i: int| !(#[trigger] bit(us1, i) && bit(them1, i)),
        forall|i: int| !(#[trigger] bit(us1, i) && bit(walls, i)),
        forall|i: int| !(#[trigger] bit(them1, i) && bit(walls, i)),
{
    lemma_playable_only_bits(us0);
    lemma_playable_only_bits(them0);
    assert forall|i: int| #[trigger] bit(us1, i) implies sq_playable(i) by {
        assert(chebyshev(to, to) == 0);
    }
    assert forall|i: int| #[trigger] bit(them1, i) implies sq_playable(i) by {}
    lemma_playable_only_intro(us1);
    lemma_playable_only_intro(them1);
    assert forall|i: int| !(#[trigger] bit(us1, i) && bit(them1, i)) by {
        if 0 <= i < 64 && bit(us1, i) && bit(them1, i) {
            assert(chebyshev(to, i) > 1);
            assert(bit(them0, i));
            assert(chebyshev(to, to) == 0);
        }
    }
}

/// Applying a legal move performs the capture step around its destination:
/// the mover gains the destination and every opponent piece within one
/// ring; a jump also vacates its origin; the blocked cells, and under a
/// pass the occupancies, never change.
pub proof fn lemma_apply(pre: Board, mv: Move)
    requires
        pre.wf(),
        pre.legal_moves().contains(mv),
        pre.ply_count() < 255,
    ensures
        move_applied(pre, pre.apply_spec(mv), mv),
        pre.apply_spec(mv).wf(),
        !pre.game_over_spec(),
    {
    lemma_contained_move_legal(pre, mv);
    let post = pre.apply_spec(mv);
    match mv {
        Move::Pass => {},
        Move::Single { to } => {
            let t = to.0 as int;
            assert forall|i: int| 0 <= i < 64 implies (#[trigger] bit(1u64 << to.0, i) <==> (i == t
                || None::<int> == Some(i))) by {
                lemma_single_bit(to.0 as u64, i);
            }
            lemma_flip_cells(pre.us_bb(), pre.them_bb(), 1u64 << to.0, t, None);
        },
        Move::Double { from, to } => {
            let fi = from.0 as int;
            let t = to.0 as int;
            let mask = (1u64 << from.0) | (1u64 << to.0);
            assert(chebyshev(fi, t) == 2);
            assert forall|i: int| 0 <= i < 64 implies (#[trigger] bit(mask, i) <==> (i == t || Some(
                fi,
            ) == Some(i))) by {
                lemma_bits_ops(1u64 << from.0, 1u64 << to.0, i);
                lemma_single_bit(from.0 as u64, i);
                lemma_single_bit(to.0 as u64, i);
            }
            assert(!bit(pre.them_bb(), fi));
            lemma_flip_cells(pre.us_bb(), pre.them_bb(), mask, t, Some(fi));
        },
    }
    lemma_move_wf(pre, post, mv);
}

/// The feature indices of the set bits below `n`, shifted by `offset`, in
/// increasing cell order.
pub open spec fn feats_upto(bb: u64, n: int, offset: int) -> Seq<usize>
    decreases n,
{
    if n <= 0 {
        Seq::empty()
    } else {
        let rest = feats_upto(bb, n - 1, offset);
        if bit(bb, n - 1) {
            rest + seq![(((n - 1) % 8 + 7 * ((n - 1) / 8)) + offset) as usize]
        } else {
            rest
        }
    }
}

/// The placement word marks exactly the legal placement destinations.
proof fn lemma_singles_word(b: Board, us: u64, them: u64, empty: u64, w: u64)
    requires
        b.wf(),
        us == b.us_bb(),
        them == b.them_bb(),
        empty == !(us | them | b.walls_bb()),
        w == expand_spec(us) & empty,
    ensures
        forall|i: int| 0 <= i < 64 ==> #[trigger] bit(w, i) == b.single_dest(i),
{
    lemma_playable_only_bits(b.white_bb());
    lemma_playable_only_bits(b.black_bb());
    assert forall|i: int| 0 <= i < 64 implies #[trigger] bit(w, i) == b.single_dest(i) by {
        lemma_bits_ops(us, them, i);
        lemma_bits_ops(us | them, b.walls_bb(), i);
        lemma_bits_ops(us | them | b.walls_bb(), 0, i);
        lemma_bits_ops(expand_spec(us), empty, i);
        lemma_expand_sem(us, i);
    }
}

/// The jump word of origin `f` marks exactly the legal jumps out of it.
proof fn lemma_doubles_word(b: Board, us: u64, them: u64, empty: u64, f: u64, w: u64)
    requires
        b.wf(),
        us == b.us_bb(),
        them == b.them_bb(),
        empty == !(us | them | b.walls_bb()),
        f < 64,
        bit(us, f as int),
        w == expand_spec(expand_spec(1u64 << f)) & empty & !expand_spec(1u64 << f),
    ensures
        forall|k: int| 0 <= k < 64 ==> #[trigger] bit(w, k) == b.double_pair(f as int, k),
{
    let local = expand_spec(1u64 << f);
    lemma_playable_only_bits(b.white_bb());
    lemma_playable_only_bits(b.black_bb());
    lemma_playable_only_bits(us);
    assert(sq_playable(f as int));
    lemma_single_bit(f, f as int);
    assert(playable_only(1u64 << f));
    lemma_expand_playable_only(1u64 << f);
    assert forall|t: int| 0 <= t < 64 implies #[trigger] bit(w, t) == b.double_pair(
        f as int,
        t,
    ) by {
        lemma_expand2_sem(1u64 << f, t);
        lemma_expand_sem(1u64 << f, t);
        crate::bits::lemma_reaches_single(f, t, 2);
        crate::bits::lemma_reaches_single(f, t, 1);
        lemma_bits_ops(expand_spec(local), empty, t);
        lemma_bits_ops(expand_spec(local) & empty, !local, t);
        lemma_bits_ops(local, local, t);
        lemma_bits_ops(us, them, t);
        lemma_bits_ops(us | them, b.walls_bb(), t);
        lemma_bits_ops(us | them | b.walls_bb(), 0, t);
    }
}

/// Placement lists grow by at most one per destination.
proof fn lemma_singles_len(b: Board, n: int)
    requires
        0 <= n,
    ensures
        b.singles_upto(n).len() <= n,
    decreases n,
{
    if n > 0 {
        lemma_singles_len(b, n - 1);
    }
}

/// An origin's jump list grows by at most one per destination.
proof fn lemma_doubles_for_len(b: Board, f: int, n: int)
    requires
        0 <= n,
    ensures
        b.doubles_for_upto(f, n).len() <= n,
    decreases n,
{
    if n > 0 {
        lemma_doubles_for_len(b, f, n - 1);
    }
}

/// The jump list grows by at most 64 per origin.
proof fn lemma_doubles_len(b: Board, n: int)
    requires
        0 <= n,
    ensures
        b.doubles_upto(n).len() <= 64 * n,
    decreases n,
{
    if n > 0 {
        lemma_doubles_len(b, n - 1);
        lemma_doubles_for_len(b, n - 1, 64);
    }
}

/// Longer placement lists extend shorter ones.
proof fn lemma_singles_prefix(b: Board, m: int, n: int)
    requires
        0 <= m <= n,
    ensures
        b.singles_upto(m).len() <= b.singles_upto(n).len(),
        forall|k: int|
            0 <= k < b.singles_upto(m).len() ==> #[trigger] b.singles_upto(n)[k]
                == b.singles_upto(m)[k],
    decreases n,
{
    if n > m {
        lemma_singles_prefix(b, m, n - 1);
    }
}

/// Longer per-origin jump lists extend shorter ones.
proof fn lemma_doubles_for_prefix(b: Board, f: int, m: int, n: int)
    requires
        0 <= m <= n,
    ensures
        b.doubles_for_upto(f, m).len() <= b.doubles_for_upto(f, n).len(),
        forall|k: int|
            0 <= k < b.doubles_for_upto(f, m).len() ==> #[trigger] b.doubles_for_upto(f, n)[k]
                == b.doubles_for_upto(f, m)[k],
    decreases n,
{
    if n > m {
        lemma_doubles_for_prefix(b, f, m, n - 1);
    }
}

/// Jump lists over more origins extend those over fewer.
proof fn lemma_doubles_prefix(b: Board, m: int, n: int)
    requires
        0 <= m <= n,
    ensures
        b.doubles_upto(m).len() <= b.doubles_upto(n).len(),
        forall|k: int|
            0 <= k < b.doubles_upto(m).len() ==> #[trigger] b.doubles_upto(n)[k]
                == b.doubles_upto(m)[k],
    decreases n,
{
    if n > m {
        lemma_doubles_prefix(b, m, n - 1);
    }
}

/// The placement whose destination is `t` sits in the full placement list
/// at the index given by the placements below `t`.
proof fn lemma_singles_index(b: Board, t: int)
    requires
        0 <= t < 64,
        b.single_dest(t),
    ensures
        b.singles_upto(t).len() < b.singles_seq().len(),
        b.singles_seq()[b.singles_upto(t).len() as int] == (Move::Single { to: Square(t as u8) }),
{
    let c = b.singles_upto(t).len() as int;
    assert(b.singles_upto(t + 1) == b.singles_upto(t) + seq![Move::Single { to: Square(t as u8) }]);
    assert(b.singles_upto(t + 1)[c] == Move::Single { to: Square(t as u8) });
    lemma_singles_prefix(b, t + 1, 64);
}

/// The jump from `f` to `t` sits in the full jump list at the index given
/// by the jumps from earlier origins and the earlier jumps from `f`.
proof fn lemma_doubles_index(b: Board, f: int, t: int)
    requires
        0 <= f < 64,
        0 <= t < 64,
        b.double_pair(f, t),
    ensures
        b.doubles_upto(f).len() + b.doubles_for_upto(f, t).len() < b.doubles_seq().len(),
        b.doubles_seq()[b.doubles_upto(f).len() + b.doubles_for_upto(f, t).len() as int] == (Move::Double {
            from: Square(f as u8),
            to: Square(t as u8),
        }),
{
    let m = Move::Double { from: Square(f as u8), to: Square(t as u8) };
    let c = b.doubles_for_upto(f, t).len() as int;
    assert(b.doubles_for_upto(f, t + 1) == b.doubles_for_upto(f, t) + seq![m]);
    assert(b.doubles_for_upto(f, t + 1)[c] == m);
    lemma_doubles_for_prefix(b, f, t + 1, 64);
    assert(b.doubles_for_upto(f, 64)[c] == m);
    let base = b.doubles_upto(f).len() as int;
    assert(b.doubles_upto(f + 1) == b.doubles_upto(f) + b.doubles_for_upto(f, 64));
    assert(b.doubles_upto(f + 1)[base + c] == m);
    lemma_doubles_prefix(b, f + 1, 64);
}

/// When a word marks exactly the legal placement destinations, counting
/// its low bits counts the corresponding placements.
proof fn lemma_singles_count(b: Board, w: u64, n: int)
    requires
        0 <= n <= 64,
        forall|k: int| 0 <= k < 64 ==> #[trigger] bit(w, k) == b.single_dest(k),
    ensures
        b.singles_upto(n).len() == crate::bits::popcount_to(w, n),
    decreases n,
{
    if n > 0 {
        lemma_singles_count(b, w, n - 1);
    }
}

/// When a word marks exactly the jumps out of `f`, counting its low bits
/// counts the corresponding jumps.
proof fn lemma_doubles_for_count(b: Board, f: int, w: u64, n: int)
    requires
        0 <= n <= 64,
        forall|k: int| 0 <= k < 64 ==> #[trigger] bit(w, k) == b.double_pair(f, k),
    ensures
        b.doubles_for_upto(f, n).len() == crate::bits::popcount_to(w, n),
    decreases n,
{
    if n > 0 {
        lemma_doubles_for_count(b, f, w, n - 1);
    }
}

impl Default for Board {
    /// The starting position, as `new` builds it.
    fn default() -> (r: Board)
        ensures
            r.wf(),
            r == Board::new_spec(),
    {
        Board::new()
    }
}

/// Writing any well-formed board as a record and reading the record back
/// yields that very board: decoding inverts encoding.
pub proof fn lemma_record_roundtrip(b: Board)
    requires
        b.wf(),
    ensures
        crate::fen::parse_fen_spec(b.fen_spec()) == Ok::<
            (u64, u64, u64, u8, u8),
            crate::fen::FenError,
        >((b.white_bb(), b.black_bb(), b.walls_bb(), b.ply_count(), b.quiet_count())),
        Board::mk_spec(b.white_bb(), b.black_bb(), b.walls_bb(), b.ply_count(), b.quiet_count())
            == b,
{
    crate::fen::lemma_fen_roundtrip(
        b.white_bb(),
        b.black_bb(),
        b.walls_bb(),
        b.ply_count(),
        b.quiet_count(),
    );
    Board::lemma_mk_spec(b.white_bb(), b.black_bb(), b.walls_bb(), b.ply_count(), b.quiet_count());
    Board::lemma_ext(
        Board::mk_spec(b.white_bb(), b.black_bb(), b.walls_bb(), b.ply_count(), b.quiet_count()),
        b,
    );
}

/// No destination accepts a placement: the placement list is empty.
proof fn lemma_singles_none(b: Board, n: int)
    requires
        forall|t: int| !b.single_dest(t),
    ensures
        b.singles_upto(n) == Seq::<Move>::empty(),
    decreases n,
{
    if n > 0 {
        lemma_singles_none(b, n - 1);
    }
}

/// No pair accepts a jump: an origin's jump list is empty.
proof fn lemma_doubles_for_none(b: Board, f: int, n: int)
    requires
        forall|t: int| !b.double_pair(f, t),
    ensures
        b.doubles_for_upto(f, n) == Seq::<Move>::empty(),
    decreases n,
{
    if n > 0 {
        lemma_doubles_for_none(b, f, n - 1);
    }
}

/// No pair accepts a jump: the jump list is empty.
proof fn lemma_doubles_none(b: Board, n: int)
    requires
        forall|f: int, t: int| !b.double_pair(f, t),
    ensures
        b.doubles_upto(n) == Seq::<Move>::empty(),
    decreases n,
{
    if n > 0 {
        lemma_doubles_none(b, n - 1);
        lemma_doubles_for_none(b, n - 1, 64);
        assert(b.doubles_upto(n) =~= Seq::<Move>::empty());
    }
}

/// Placements are listed with strictly increasing destinations, all below
/// the scanned bound.
proof fn lemma_singles_sorted(b: Board, n: int)
    requires
        0 <= n <= 64,
    ensures
        forall|k: int|
            0 <= k < b.singles_upto(n).len() ==> ((#[trigger] b.singles_upto(n)[k]) matches
                Move::Single { to } && to.0 < n),
        forall|k1: int, k2: int|
            0 <= k1 < k2 < b.singles_upto(n).len() ==> (b.singles_upto(n)[k1]->Single_to).0 < (
            b.singles_upto(n)[k2]->Single_to).0,
    decreases n,
{
    if n > 0 {
        lemma_singles_sorted(b, n - 1);
        let s = b.singles_upto(n);
        let r = b.singles_upto(n - 1);
        if b.single_dest(n - 1) {
            assert(s == r + seq![Move::Single { to: Square((n - 1) as u8) }]);
            assert(forall|k: int| 0 <= k < r.len() ==> s[k] == r[k]);
            assert(s[r.len() as int] == (Move::Single { to: Square((n - 1) as u8) }));
        }
    }
}

/// Jumps out of one origin are listed with strictly increasing
/// destinations, all below the scanned bound.
proof fn lemma_doubles_for_sorted(b: Board, f: int, n: int)
    requires
        0 <= f < 64,
        0 <= n <= 64,
    ensures
        forall|k: int|
            0 <= k < b.doubles_for_upto(f, n).len() ==> ((#[trigger] b.doubles_for_upto(f, n)[k])
                matches Move::Double { from, to } && from.0 == f && to.0 < n),
        forall|k1: int, k2: int|
            0 <= k1 < k2 < b.doubles_for_upto(f, n).len() ==> (b.doubles_for_upto(f, n)[k1]
                ->Double_to).0 < (b.doubles_for_upto(f, n)[k2]->Double_to).0,
    decreases n,
{
    if n > 0 {
        lemma_doubles_for_sorted(b, f, n - 1);
        let s = b.doubles_for_upto(f, n);
        let r = b.doubles_for_upto(f, n - 1);
        if b.double_pair(f, n - 1) {
            let m = Move::Double { from: Square(f as u8), to: Square((n - 1) as u8) };
            assert(s == r + seq![m]);
            assert(forall|k: int| 0 <= k < r.len() ==> s[k] == r[k]);
            assert(s[r.len() as int] == m);
        }
    }
}

/// Jumps are listed grouped by origin, origins increasing, destinations
/// increasing within an origin: no jump is listed twice.
proof fn lemma_doubles_distinct(b: Board, n: int)
    requires
        0 <= n <= 64,
    ensures
        forall|k: int|
            0 <= k < b.doubles_upto(n).len() ==> ((#[trigger] b.doubles_upto(n)[k]) matches
                Move::Double { from, to } && from.0 < n),
        forall|k1: int, k2: int|
            0 <= k1 < k2 < b.doubles_upto(n).len() ==> b.doubles_upto(n)[k1] != b.doubles_upto(
                n,
            )[k2],
    decreases n,
{
    if n > 0 {
        lemma_doubles_distinct(b, n - 1);
        lemma_doubles_for_sorted(b, n - 1, 64);
        let s = b.doubles_upto(n);
        let r = b.doubles_upto(n - 1);
        let d = b.doubles_for_upto(n - 1, 64);
        assert(s == r + d);
        assert(forall|k: int| 0 <= k < r.len() ==> s[k] == r[k]);
        assert(forall|k: int| r.len() <= k < s.len() ==> s[k] == d[k - r.len()]);
        assert forall|k1: int, k2: int| 0 <= k1 < k2 < s.len() implies s[k1] != s[k2] by {
            if k1 < r.len() && k2 >= r.len() {
                assert((s[k1]->Double_from).0 < n - 1);
                assert((s[k2]->Double_from).0 == n - 1);
            }
        }
    }
}

/// The generator never lists the same move twice.
pub proof fn lemma_legal_moves_distinct(b: Board)
    ensures
        forall|k1: int, k2: int|
            0 <= k1 < k2 < b.legal_moves().len() ==> b.legal_moves()[k1] != b.legal_moves()[k2],
{
    lemma_singles_sorted(b, 64);
    lemma_doubles_distinct(b, 64);
    if !b.game_over_spec() && b.singles_seq().len() + b.doubles_seq().len() > 0 {
        let s = b.legal_moves();
        let sg = b.singles_seq();
        let d = b.doubles_seq();
        assert(s == sg + d);
        assert(forall|k: int| 0 <= k < sg.len() ==> s[k] == sg[k]);
        assert(forall|k: int| sg.len() <= k < s.len() ==> s[k] == d[k - sg.len()]);
        assert forall|k1: int, k2: int| 0 <= k1 < k2 < s.len() implies s[k1] != s[k2] by {
            if k1 < sg.len() && k2 >= sg.len() {
                assert(s[k1] matches Move::Single { .. });
                assert(s[k2] matches Move::Double { .. });
            }
        }
    }
}

/// While the game runs the generator always offers at least one move: a
/// placement, a jump, or the forced pass.
pub proof fn lemma_running_has_move(b: Board)
    requires
        !b.game_over_spec(),
    ensures
        b.legal_moves().len() > 0,
{
}

/// Eliminating a side ends the game, and the outcome goes to the side
/// with pieces left: the other side wins outright, and a board with no
/// pieces at all ties.
pub proof fn lemma_elimination_outcome(b: Board)
    requires
        b.wf(),
        b.white_bb() == 0 || b.black_bb() == 0,
    ensures
        b.game_over_spec(),
        b.white_bb() == 0 && b.black_bb() != 0 ==> b.outcome_spec() == Some(
            Some(Player::Black),
        ),
        b.black_bb() == 0 && b.white_bb() != 0 ==> b.outcome_spec() == Some(
            Some(Player::White),
        ),
        b.white_bb() == 0 && b.black_bb() == 0 ==> b.outcome_spec() == Some(None::<Player>),
{
    assert forall|i: int| !bit(0u64, i) by {
        if 0 <= i < 64 {
            lemma_bits_ops(0, 0, i);
        }
    }
    if b.white_bb() == 0 {
        lemma_popcount_zero(b.white_bb(), 64);
    }
    if b.black_bb() == 0 {
        lemma_popcount_zero(b.black_bb(), 64);
    }
    if b.white_bb() != 0 {
        let t = crate::bits::nonzero_witness(b.white_bb());
        lemma_popcount_pos(b.white_bb(), t, 64);
    }
    if b.black_bb() != 0 {
        let t = crate::bits::nonzero_witness(b.black_bb());
        lemma_popcount_pos(b.black_bb(), t, 64);
    }
}

/// When the game still runs but every empty cell lies outside both rings
/// of every cell of the side to move, the generator yields exactly one
/// move, the forced pass.  (When the empty cells are out of reach of both
/// sides at once, the game is instead over and nothing is generated.)
pub proof fn lemma_no_moves_pass(b: Board)
    requires
        b.wf(),
        !b.game_over_spec(),
        forall|i: int|
            b.cell_empty(i) ==> !(exists|j: int| bit(b.us_bb(), j) && chebyshev(j, i) <= 2),
    ensures
        b.legal_moves() == seq![Move::Pass],
{
    assert forall|t: int| !b.single_dest(t) by {
        if b.single_dest(t) {
            let j = choose|j: int| bit(b.us_bb(), j) && chebyshev(j, t) <= 1;
            assert(bit(b.us_bb(), j) && chebyshev(j, t) <= 2);
        }
    }
    assert forall|f: int, t: int| !b.double_pair(f, t) by {
        if b.double_pair(f, t) {
            assert(bit(b.us_bb(), f) && chebyshev(f, t) <= 2);
        }
    }
    lemma_singles_none(b, 64);
    lemma_doubles_none(b, 64);
}

/// A cell that holds no mover piece originates no jumps.
proof fn lemma_doubles_for_empty(b: Board, f: int, n: int)
    requires
        !bit(b.us_bb(), f),
    ensures
        b.doubles_for_upto(f, n) == Seq::<Move>::empty(),
    decreases n,
{
    if n > 0 {
        lemma_doubles_for_empty(b, f, n - 1);
    }
}

} // verus!
