//! The textual record format: seven run-length-encoded rank fields, the
//! side to move, the quiet-halfmove counter and the full-move counter.
//! Everything here works on plain words and character sequences; the board
//! type wires it up.

use vstd::prelude::*;
use vstd::string::StrSliceExecFns;
use crate::bits::{bit, sq_file, sq_playable, sq_rank, BB_EDGE};

verus! {

/// Why a record string was rejected.
#[derive(Clone, Copy, Debug, PartialEq, Eq, Structural)]
pub enum FenError {
    NotEnoughParts,
    NotEnoughRanks,
    TooManyRanks,
    NotEnoughFiles(u32),
    TooManyFiles(u32),
    InvalidChar(char),
    InvalidStm,
    InvalidHalfmove,
    InvalidFullmove,
}

/// The human-readable account of a rejected record string.
pub open spec fn message_spec(e: FenError) -> Seq<char> {
    match e {
        FenError::NotEnoughParts => "Incomplete FEN"@,
        FenError::NotEnoughRanks => "Not enough ranks in FEN"@,
        FenError::TooManyRanks => "Too many ranks in FEN"@,
        FenError::NotEnoughFiles(rank) => "Not enough files in rank "@ + dec_digits(
            rank as int + 1,
        ),
        FenError::TooManyFiles(rank) => "Too many files in rank "@ + dec_digits(rank as int + 1),
        FenError::InvalidChar(_) => "Invalid character in FEN"@,
        FenError::InvalidStm => "Invalid side to move in FEN"@,
        FenError::InvalidHalfmove => "Invalid halfmove clock in FEN"@,
        FenError::InvalidFullmove => "Invalid fullmove number in FEN"@,
    }
}

impl FenError {
    /// Say in words why the record was rejected, naming the offending
    /// rank where one is known.
    pub fn message(&self) -> (r: String)
        ensures
            r@ == message_spec(*self),
    {
        let mut s = String::new();
        match self {
            FenError::NotEnoughParts => s.append("Incomplete FEN"),
            FenError::NotEnoughRanks => s.append("Not enough ranks in FEN"),
            FenError::TooManyRanks => s.append("Too many ranks in FEN"),
            FenError::NotEnoughFiles(rank) => {
                s.append("Not enough files in rank ");
                push_number(&mut s, *rank as u64 + 1);
            },
            FenError::TooManyFiles(rank) => {
                s.append("Too many files in rank ");
                push_number(&mut s, *rank as u64 + 1);
            },
            FenError::InvalidChar(_) => s.append("Invalid character in FEN"),
            FenError::InvalidStm => s.append("Invalid side to move in FEN"),
            FenError::InvalidHalfmove => s.append("Invalid halfmove clock in FEN"),
            FenError::InvalidFullmove => s.append("Invalid fullmove number in FEN"),
        }
        proof {
            assert(s@ =~= message_spec(*self));
        }
        s
    }
}

/// The decimal digit character for a value below ten.
pub open spec fn digit_char(d: int) -> char {
    if d == 0 {
        '0'
    } else if d == 1 {
        '1'
    } else if d == 2 {
        '2'
    } else if d == 3 {
        '3'
    } else if d == 4 {
        '4'
    } else if d == 5 {
        '5'
    } else if d == 6 {
        '6'
    } else if d == 7 {
        '7'
    } else if d == 8 {
        '8'
    } else {
        '9'
    }
}

/// The value of a decimal digit character, if it is one.
pub open spec fn digit_val(c: char) -> Option<int> {
    if c == '0' {
        Some(0)
    } else if c == '1' {
        Some(1)
    } else if c == '2' {
        Some(2)
    } else if c == '3' {
        Some(3)
    } else if c == '4' {
        Some(4)
    } else if c == '5' {
        Some(5)
    } else if c == '6' {
        Some(6)
    } else if c == '7' {
        Some(7)
    } else if c == '8' {
        Some(8)
    } else if c == '9' {
        Some(9)
    } else {
        None
    }
}

/// The decimal digits of a nonnegative number, most significant first.
pub open spec fn dec_digits(n: int) -> Seq<char>
    decreases n,
{
    if n < 10 {
        seq![digit_char(n)]
    } else {
        dec_digits(n / 10) + seq![digit_char(n % 10)]
    }
}

/// The value a digit string denotes, if every character is a digit, there
/// is at least one, and the value stays within `limit`.
pub open spec fn parse_dec(cs: Seq<char>, k: int, acc: int, limit: int) -> Option<int>
    decreases cs.len() - k,
{
    if k >= cs.len() {
        Some(acc)
    } else {
        match digit_val(cs[k]) {
            None => None,
            Some(d) => {
                if acc * 10 + d > limit {
                    None
                } else {
                    parse_dec(cs, k + 1, acc * 10 + d, limit)
                }
            },
        }
    }
}

/// The value a whole token denotes as a bounded decimal number.
pub open spec fn parse_number(cs: Seq<char>, limit: int) -> Option<int> {
    if cs.len() == 0 {
        None
    } else {
        parse_dec(cs, 0, 0, limit)
    }
}

/// The space-separated tokens of a character sequence, scanned from `k`
/// with `cur` the token read so far.
pub open spec fn tokens_from(cs: Seq<char>, k: int, cur: Seq<char>) -> Seq<Seq<char>>
    decreases cs.len() - k,
{
    if k >= cs.len() {
        if cur.len() > 0 {
            seq![cur]
        } else {
            Seq::empty()
        }
    } else if cs[k] == ' ' {
        if cur.len() > 0 {
            seq![cur] + tokens_from(cs, k + 1, Seq::empty())
        } else {
            tokens_from(cs, k + 1, Seq::empty())
        }
    } else {
        tokens_from(cs, k + 1, cur + seq![cs[k]])
    }
}

/// The space-separated tokens of a character sequence.
pub open spec fn tokens(cs: Seq<char>) -> Seq<Seq<char>> {
    tokens_from(cs, 0, Seq::empty())
}

/// The characters of a string, as a vector.
pub(crate) fn chars_vec(s: &str) -> (v: Vec<char>)
    ensures
        v@ == s@,
{
    let n = s.unicode_len();
    let mut v: Vec<char> = Vec::new();
    let mut k: usize = 0;
    while k < n
        invariant
            k <= n,
            n == s@.len(),
            v@ == s@.subrange(0, k as int),
        decreases n - k,
    {
        v.push(s.get_char(k));
        proof {
            assert(v@ =~= s@.subrange(0, k as int + 1));
        }
        k = k + 1;
    }
    proof {
        assert(v@ =~= s@);
    }
    v
}

/// Split a character vector into its space-separated tokens.
pub(crate) fn tokenize(cs: &Vec<char>) -> (parts: Vec<Vec<char>>)
    ensures
        parts.deep_view() == tokens(cs@),
{
    let mut parts: Vec<Vec<char>> = Vec::new();
    let mut cur: Vec<char> = Vec::new();
    let mut k: usize = 0;
    while k < cs.len()
        invariant
            k <= cs@.len(),
            tokens(cs@) == parts.deep_view() + tokens_from(cs@, k as int, cur@),
        decreases cs@.len() - k,
    {
        let c = cs[k];
        if c == ' ' {
            if cur.len() > 0 {
                let ghost old_dv = parts.deep_view();
                let ghost old_vec = parts@;
                let done = cur;
                cur = Vec::new();
                parts.push(done);
                proof {
                    lemma_deep_view_push(old_vec, parts@, done, old_dv, parts.deep_view());
                    assert(tokens(cs@) =~= parts.deep_view() + tokens_from(
                        cs@,
                        k as int + 1,
                        cur@,
                    ));
                }
            }
        } else {
            let ghost old_cur = cur@;
            cur.push(c);
            proof {
                assert(cur@ =~= old_cur + seq![cs@[k as int]]);
            }
        }
        proof {
            if cur@.len() == 0 {
                assert(cur@ =~= Seq::<char>::empty());
            }
            assert(tokens(cs@) =~= parts.deep_view() + tokens_from(cs@, k as int + 1, cur@));
        }
        k = k + 1;
    }
    if cur.len() > 0 {
        let ghost old_dv = parts.deep_view();
        let ghost old_vec = parts@;
        let done = cur;
        parts.push(done);
        proof {
            lemma_deep_view_push(old_vec, parts@, done, old_dv, parts.deep_view());
            assert(tokens(cs@) =~= parts.deep_view());
        }
    } else {
        proof {
            assert(tokens(cs@) =~= parts.deep_view());
        }
    }
    parts
}

/// The pieces of a character sequence between `/` separators, scanned
/// from `k` with `cur` the piece read so far.  Unlike space tokenization,
/// every piece counts, empty ones included.
pub open spec fn slash_pieces_from(cs: Seq<char>, k: int, cur: Seq<char>) -> Seq<Seq<char>>
    decreases cs.len() - k,
{
    if k >= cs.len() {
        seq![cur]
    } else if cs[k] == '/' {
        seq![cur] + slash_pieces_from(cs, k + 1, Seq::empty())
    } else {
        slash_pieces_from(cs, k + 1, cur + seq![cs[k]])
    }
}

/// The pieces of a character sequence between `/` separators.
pub open spec fn slash_pieces(cs: Seq<char>) -> Seq<Seq<char>> {
    slash_pieces_from(cs, 0, Seq::empty())
}

/// One rank field read from `k` on: digits skip empty cells, piece and
/// block characters fill the next cell of board rank `6 - ridx`, and the
/// files covered must total exactly seven.
pub open spec fn parse_rank_at(
    cs: Seq<char>,
    k: int,
    ridx: int,
    f: int,
    w: u64,
    b: u64,
    wl: u64,
) -> Result<(u64, u64, u64), FenError>
    decreases cs.len() - k,
{
    if k >= cs.len() {
        if f == 7 {
            Ok((w, b, wl))
        } else if f < 7 {
            Err(FenError::NotEnoughFiles(ridx as u32))
        } else {
            Err(FenError::TooManyFiles(ridx as u32))
        }
    } else if f >= 8 {
        Err(FenError::TooManyFiles(ridx as u32))
    } else {
        let c = cs[k];
        match digit_val(c) {
            Some(d) => parse_rank_at(cs, k + 1, ridx, f + d, w, b, wl),
            None => {
                let sq = (8 * (6 - ridx) + f) as u64;
                if c == 'x' {
                    parse_rank_at(cs, k + 1, ridx, f + 1, w | (1u64 << sq), b, wl)
                } else if c == 'o' {
                    parse_rank_at(cs, k + 1, ridx, f + 1, w, b | (1u64 << sq), wl)
                } else if c == '-' {
                    parse_rank_at(cs, k + 1, ridx, f + 1, w, b, wl | (1u64 << sq))
                } else {
                    Err(FenError::InvalidChar(c))
                }
            },
        }
    }
}

/// The rank fields from `idx` on, folded over the occupancy words.
pub open spec fn parse_ranks(
    ranks: Seq<Seq<char>>,
    idx: int,
    w: u64,
    b: u64,
    wl: u64,
) -> Result<(u64, u64, u64), FenError>
    decreases 7 - idx,
{
    if idx >= 7 {
        Ok((w, b, wl))
    } else {
        match parse_rank_at(ranks[idx], 0, idx, 0, w, b, wl) {
            Err(e) => Err(e),
            Ok((w2, b2, wl2)) => parse_ranks(ranks, idx + 1, w2, b2, wl2),
        }
    }
}

/// The board field: exactly seven rank fields separated by `/`, most
/// significant rank first.
pub open spec fn parse_board(cs: Seq<char>) -> Result<(u64, u64, u64), FenError> {
    let ranks = slash_pieces(cs);
    if ranks.len() < 7 {
        Err(FenError::NotEnoughRanks)
    } else if ranks.len() > 7 {
        Err(FenError::TooManyRanks)
    } else {
        parse_ranks(ranks, 0, 0, 0, 0)
    }
}

/// A whole record: board field, side to move, quiet-halfmove counter and
/// 1-based full-move counter, space-separated; the ply is reconstructed
/// from the full-move counter and the side to move.
pub open spec fn parse_fen_spec(cs: Seq<char>) -> Result<(u64, u64, u64, u8, u8), FenError> {
    let parts = tokens(cs);
    if parts.len() < 4 {
        Err(FenError::NotEnoughParts)
    } else {
        match parse_board(parts[0]) {
            Err(e) => Err(e),
            Ok((w, b, wl)) => {
                if parts[1].len() != 1 || (parts[1][0] != 'x' && parts[1][0] != 'o') {
                    Err(FenError::InvalidStm)
                } else {
                    match parse_number(parts[2], 255) {
                        None => Err(FenError::InvalidHalfmove),
                        Some(hm) => {
                            match parse_number(parts[3], 0xFFFF_FFFF) {
                                None => Err(FenError::InvalidFullmove),
                                Some(fm) => {
                                    if fm == 0 {
                                        Err(FenError::InvalidFullmove)
                                    } else {
                                        let stm_bit: int = if parts[1][0] == 'o' {
                                            1
                                        } else {
                                            0
                                        };
                                        Ok(
                                            (
                                                w,
                                                b,
                                                wl | BB_EDGE,
                                                ((((fm - 1) * 2) + stm_bit) % 256) as u8,
                                                hm as u8,
                                            ),
                                        )
                                    }
                                },
                            }
                        },
                    }
                }
            },
        }
    }
}

/// The value of a decimal digit character, if it is one.
fn digit_of(c: char) -> (r: Option<u8>)
    ensures
        r matches Some(d) ==> digit_val(c) == Some(d as int),
        r is None ==> digit_val(c) is None,
{
    match c {
        '0' => Some(0),
        '1' => Some(1),
        '2' => Some(2),
        '3' => Some(3),
        '4' => Some(4),
        '5' => Some(5),
        '6' => Some(6),
        '7' => Some(7),
        '8' => Some(8),
        '9' => Some(9),
        _ => None,
    }
}

/// Read a token as a bounded decimal number.
fn number_of(cs: &Vec<char>, limit: u64) -> (r: Option<u64>)
    requires
        limit <= 0xFFFF_FFFF,
    ensures
        r matches Some(n) ==> parse_number(cs@, limit as int) == Some(n as int) && n <= limit,
        r is None ==> parse_number(cs@, limit as int) is None,
{
    if cs.len() == 0 {
        return None;
    }
    let mut acc: u64 = 0;
    let mut k: usize = 0;
    while k < cs.len()
        invariant
            k <= cs@.len(),
            acc <= limit,
            limit <= 0xFFFF_FFFF,
            parse_dec(cs@, 0, 0, limit as int) == parse_dec(cs@, k as int, acc as int, limit as int),
        decreases cs@.len() - k,
    {
        match digit_of(cs[k]) {
            None => {
                return None;
            },
            Some(d) => {
                if acc * 10 + (d as u64) > limit {
                    return None;
                }
                acc = acc * 10 + (d as u64);
            },
        }
        k = k + 1;
    }
    Some(acc)
}

/// Split a character vector into its `/`-separated pieces, empty pieces
/// included.
fn split_slashes(cs: &Vec<char>) -> (pieces: Vec<Vec<char>>)
    ensures
        pieces.deep_view() == slash_pieces(cs@),
{
    let mut pieces: Vec<Vec<char>> = Vec::new();
    let mut cur: Vec<char> = Vec::new();
    let mut k: usize = 0;
    while k < cs.len()
        invariant
            k <= cs@.len(),
            slash_pieces(cs@) == pieces.deep_view() + slash_pieces_from(cs@, k as int, cur@),
        decreases cs@.len() - k,
    {
        let c = cs[k];
        if c == '/' {
            let ghost old_dv = pieces.deep_view();
            let ghost old_vec = pieces@;
            let done = cur;
            cur = Vec::new();
            pieces.push(done);
            proof {
                lemma_deep_view_push(old_vec, pieces@, done, old_dv, pieces.deep_view());
                assert(cur@ =~= Seq::<char>::empty());
                assert(slash_pieces(cs@) =~= pieces.deep_view() + slash_pieces_from(
                    cs@,
                    k as int + 1,
                    cur@,
                ));
            }
        } else {
            let ghost old_cur = cur@;
            cur.push(c);
            proof {
                assert(cur@ =~= old_cur + seq![cs@[k as int]]);
                assert(slash_pieces(cs@) =~= pieces.deep_view() + slash_pieces_from(
                    cs@,
                    k as int + 1,
                    cur@,
                ));
            }
        }
        k = k + 1;
    }
    let ghost old_dv = pieces.deep_view();
    let ghost old_vec = pieces@;
    let done = cur;
    pieces.push(done);
    proof {
        lemma_deep_view_push(old_vec, pieces@, done, old_dv, pieces.deep_view());
        assert(slash_pieces(cs@) =~= pieces.deep_view());
    }
    pieces
}

/// Read one rank field into the occupancy words.
fn rank_of(cs: &Vec<char>, ridx: u8, w0: u64, b0: u64, wl0: u64) -> (r: Result<
    (u64, u64, u64),
    FenError,
>)
    requires
        ridx <= 6,
    ensures
        r == parse_rank_at(cs@, 0, ridx as int, 0, w0, b0, wl0),
{
    let mut w = w0;
    let mut b = b0;
    let mut wl = wl0;
    let mut f: u8 = 0;
    let mut k: usize = 0;
    while k < cs.len()
        invariant
            k <= cs@.len(),
            f <= 16,
            ridx <= 6,
            parse_rank_at(cs@, 0, ridx as int, 0, w0, b0, wl0) == parse_rank_at(
                cs@,
                k as int,
                ridx as int,
                f as int,
                w,
                b,
                wl,
            ),
        decreases cs@.len() - k,
    {
        if f >= 8 {
            return Err(FenError::TooManyFiles(ridx as u32));
        }
        let c = cs[k];
        match digit_of(c) {
            Some(d) => {
                f = f + d;
            },
            None => {
                let sq: u8 = 8 * (6 - ridx) + f;
                if c == 'x' {
                    w = w | (1u64 << sq);
                    f = f + 1;
                } else if c == 'o' {
                    b = b | (1u64 << sq);
                    f = f + 1;
                } else if c == '-' {
                    wl = wl | (1u64 << sq);
                    f = f + 1;
                } else {
                    return Err(FenError::InvalidChar(c));
                }
            },
        }
        k = k + 1;
    }
    if f == 7 {
        Ok((w, b, wl))
    } else if f < 7 {
        Err(FenError::NotEnoughFiles(ridx as u32))
    } else {
        Err(FenError::TooManyFiles(ridx as u32))
    }
}

/// Read the board field into the three occupancy words.
fn board_of(cs: &Vec<char>) -> (r: Result<(u64, u64, u64), FenError>)
    ensures
        r == parse_board(cs@),
{
    let ranks = split_slashes(cs);
    let ghost dv = ranks.deep_view();
    if ranks.len() < 7 {
        return Err(FenError::NotEnoughRanks);
    }
    if ranks.len() > 7 {
        return Err(FenError::TooManyRanks);
    }
    let mut w: u64 = 0;
    let mut b: u64 = 0;
    let mut wl: u64 = 0;
    let mut idx: usize = 0;
    while idx < 7
        invariant
            idx <= 7,
            ranks@.len() == 7,
            dv == ranks.deep_view(),
            dv == slash_pieces(cs@),
            parse_ranks(dv, 0, 0, 0, 0) == parse_ranks(dv, idx as int, w, b, wl),
        decreases 7 - idx,
    {
        proof {
            assert(ranks@[idx as int].deep_view() =~= ranks@[idx as int]@);
            assert(dv[idx as int] == ranks@[idx as int]@);
        }
        match rank_of(&ranks[idx], idx as u8, w, b, wl) {
            Err(e) => {
                return Err(e);
            },
            Ok(t) => {
                w = t.0;
                b = t.1;
                wl = t.2;
            },
        }
        idx = idx + 1;
    }
    Ok((w, b, wl))
}

/// The three occupancy words are pairwise disjoint, cell by cell.
pub open spec fn words_disjoint(w: u64, b: u64, wl: u64) -> bool {
    &&& forall|i: int| !(#[trigger] bit(w, i) && bit(b, i))
    &&& forall|i: int| !(#[trigger] bit(w, i) && bit(wl, i))
    &&& forall|i: int| !(#[trigger] bit(b, i) && bit(wl, i))
}

/// Every bit of `new` is a bit of `old` or a playable cell of board rank
/// `6 - ridx` at file `f` or beyond.
pub open spec fn grows_in_rank(old: u64, new: u64, ridx: int, f: int) -> bool {
    forall|i: int|
        #[trigger] bit(new, i) ==> bit(old, i) || (sq_playable(i) && sq_rank(i) == 6 - ridx
            && sq_file(i) >= f)
}

/// Every bit of `new` is a bit of `old` or a playable cell of board rank
/// `6 - idx` or below.
pub open spec fn grows_below(old: u64, new: u64, idx: int) -> bool {
    forall|i: int|
        #[trigger] bit(new, i) ==> bit(old, i) || (sq_playable(i) && sq_rank(i) <= 6 - idx)
}

/// With the files from `f` on out of reach, a rank field can only err.
proof fn lemma_rank_f8(cs: Seq<char>, k: int, ridx: int, f: int, w: u64, b: u64, wl: u64)
    requires
        f >= 8,
    ensures
        parse_rank_at(cs, k, ridx, f, w, b, wl) is Err,
{
}

/// A successfully read rank field adds bits only in its own board rank,
/// each at a fresh playable cell, so disjointness survives.
proof fn lemma_rank_ok(cs: Seq<char>, k: int, ridx: int, f: int, w: u64, b: u64, wl: u64)
    requires
        0 <= ridx <= 6,
        0 <= f,
        parse_rank_at(cs, k, ridx, f, w, b, wl) is Ok,
        words_disjoint(w, b, wl),
        forall|i: int|
            sq_playable(i) && sq_rank(i) == 6 - ridx && sq_file(i) >= f ==> !bit(w, i) && !bit(
                b,
                i,
            ) && !bit(wl, i),
    ensures
        ({
            let t = parse_rank_at(cs, k, ridx, f, w, b, wl)->Ok_0;
            &&& grows_in_rank(w, t.0, ridx, f)
            &&& grows_in_rank(b, t.1, ridx, f)
            &&& grows_in_rank(wl, t.2, ridx, f)
            &&& words_disjoint(t.0, t.1, t.2)
        }),
    decreases cs.len() - k,
{
    if k >= cs.len() || f >= 8 {
    } else {
        let c = cs[k];
        match digit_val(c) {
            Some(d) => {
                lemma_rank_ok(cs, k + 1, ridx, f + d, w, b, wl);
            },
            None => {
                if c == 'x' || c == 'o' || c == '-' {
                    let sq = (8 * (6 - ridx) + f) as u64;
                    let m = 1u64 << sq;
                    if f >= 7 {
                        lemma_rank_f8(cs, k + 1, ridx, f + 1, w | m, b, wl);
                        lemma_rank_f8(cs, k + 1, ridx, f + 1, w, b | m, wl);
                        lemma_rank_f8(cs, k + 1, ridx, f + 1, w, b, wl | m);
                        assert(false);
                    }
                    crate::bits::lemma_single_bit(sq, sq as int);
                    assert(sq_rank(sq as int) == 6 - ridx && sq_file(sq as int) == f);
                    assert(sq_playable(sq as int));
                    assert forall|i: int| #[trigger] bit(w | m, i) implies (bit(w, i) || i == sq
                        as int) by {
                        crate::bits::lemma_bits_ops(w, m, i);
                        crate::bits::lemma_single_bit(sq, i);
                    }
                    assert forall|i: int| #[trigger] bit(b | m, i) implies (bit(b, i) || i == sq
                        as int) by {
                        crate::bits::lemma_bits_ops(b, m, i);
                        crate::bits::lemma_single_bit(sq, i);
                    }
                    assert forall|i: int| #[trigger] bit(wl | m, i) implies (bit(wl, i) || i == sq
                        as int) by {
                        crate::bits::lemma_bits_ops(wl, m, i);
                        crate::bits::lemma_single_bit(sq, i);
                    }
                    assert(bit(w | m, sq as int) && bit(b | m, sq as int) && bit(wl | m, sq as int))
                        by {
                        crate::bits::lemma_bits_ops(w, m, sq as int);
                        crate::bits::lemma_bits_ops(b, m, sq as int);
                        crate::bits::lemma_bits_ops(wl, m, sq as int);
                    }
                    assert forall|i: int| #[trigger] bit(w, i) implies bit(w | m, i) by {
                        crate::bits::lemma_bits_ops(w, m, i);
                    }
                    assert forall|i: int| #[trigger] bit(b, i) implies bit(b | m, i) by {
                        crate::bits::lemma_bits_ops(b, m, i);
                    }
                    assert forall|i: int| #[trigger] bit(wl, i) implies bit(wl | m, i) by {
                        crate::bits::lemma_bits_ops(wl, m, i);
                    }
                    if c == 'x' {
                        lemma_rank_ok(cs, k + 1, ridx, f + 1, w | m, b, wl);
                    } else if c == 'o' {
                        lemma_rank_ok(cs, k + 1, ridx, f + 1, w, b | m, wl);
                    } else {
                        lemma_rank_ok(cs, k + 1, ridx, f + 1, w, b, wl | m);
                    }
                }
            },
        }
    }
}

/// A successfully read board field fills only playable cells, and keeps
/// the three words pairwise disjoint.
proof fn lemma_ranks_ok(ranks: Seq<Seq<char>>, idx: int, w: u64, b: u64, wl: u64)
    requires
        0 <= idx <= 7,
        parse_ranks(ranks, idx, w, b, wl) is Ok,
        words_disjoint(w, b, wl),
        forall|i: int|
            sq_playable(i) && sq_rank(i) <= 6 - idx ==> !bit(w, i) && !bit(b, i) && !bit(wl, i),
    ensures
        ({
            let t = parse_ranks(ranks, idx, w, b, wl)->Ok_0;
            &&& grows_below(w, t.0, idx)
            &&& grows_below(b, t.1, idx)
            &&& grows_below(wl, t.2, idx)
            &&& words_disjoint(t.0, t.1, t.2)
        }),
    decreases 7 - idx,
{
    if idx < 7 {
        let r1 = parse_rank_at(ranks[idx], 0, idx, 0, w, b, wl);
        lemma_rank_ok(ranks[idx], 0, idx, 0, w, b, wl);
        let t1 = r1->Ok_0;
        lemma_ranks_ok(ranks, idx + 1, t1.0, t1.1, t1.2);
    }
}

/// Read a whole record string into its board words, ply and quiet count.
/// On success the occupancies are playable-only and the three cell sets
/// are pairwise disjoint, with every edge cell blocked.
pub(crate) fn parse_fields(s: &str) -> (r: Result<(u64, u64, u64, u8, u8), FenError>)
    ensures
        r == parse_fen_spec(s@),
        r matches Ok(t) ==> {
            &&& crate::bits::playable_only(t.0)
            &&& crate::bits::playable_only(t.1)
            &&& words_disjoint(t.0, t.1, t.2)
            &&& forall|i: int| 0 <= i < 64 && !sq_playable(i) ==> bit(t.2, i)
        },
{
    let cs = chars_vec(s);
    let parts = tokenize(&cs);
    let ghost pdv = parts.deep_view();
    if parts.len() < 4 {
        return Err(FenError::NotEnoughParts);
    }
    proof {
        assert(parts@[0].deep_view() =~= parts@[0]@);
        assert(parts@[1].deep_view() =~= parts@[1]@);
        assert(parts@[2].deep_view() =~= parts@[2]@);
        assert(parts@[3].deep_view() =~= parts@[3]@);
    }
    let bw: (u64, u64, u64) = match board_of(&parts[0]) {
        Err(e) => {
            return Err(e);
        },
        Ok(t) => t,
    };
    let p1 = &parts[1];
    if p1.len() != 1 {
        return Err(FenError::InvalidStm);
    }
    let stm = p1[0];
    if stm != 'x' && stm != 'o' {
        return Err(FenError::InvalidStm);
    }
    let black_to_move = stm == 'o';
    let hm: u64 = match number_of(&parts[2], 255) {
        None => {
            return Err(FenError::InvalidHalfmove);
        },
        Some(n) => n,
    };
    let fm: u64 = match number_of(&parts[3], 0xFFFF_FFFF) {
        None => {
            return Err(FenError::InvalidFullmove);
        },
        Some(n) => n,
    };
    if fm == 0 {
        return Err(FenError::InvalidFullmove);
    }
    let ply64: u64 = ((fm - 1) * 2 + if black_to_move {
        1
    } else {
        0
    }) % 256;
    proof {
        assert(parse_ranks(slash_pieces(pdv[0]), 0, 0, 0, 0) is Ok);
        assert forall|i: int| !bit(0u64, i) by {
            if 0 <= i < 64 {
                crate::bits::lemma_bits_ops(0, 0, i);
            }
        }
        lemma_ranks_ok(slash_pieces(pdv[0]), 0, 0, 0, 0);
        let t = parse_ranks(slash_pieces(pdv[0]), 0, 0, 0, 0)->Ok_0;
        assert forall|i: int| #[trigger] bit(t.0, i) implies sq_playable(i) by {
            crate::bits::lemma_bits_ops(0, 0, i);
        }
        assert forall|i: int| #[trigger] bit(t.1, i) implies sq_playable(i) by {
            crate::bits::lemma_bits_ops(0, 0, i);
        }
        assert forall|i: int| #[trigger] bit(t.2, i) implies sq_playable(i) by {
            crate::bits::lemma_bits_ops(0, 0, i);
        }
        crate::bits::lemma_playable_only_intro(t.0);
        crate::bits::lemma_playable_only_intro(t.1);
        let wl2 = t.2 | BB_EDGE;
        assert forall|i: int| 0 <= i < 64 implies #[trigger] bit(wl2, i) == (bit(t.2, i)
            || !sq_playable(i)) by {
            crate::bits::lemma_bits_ops(t.2, BB_EDGE, i);
            crate::bits::lemma_mask_bits(i);
        }
    }
    Ok((bw.0, bw.1, bw.2 | BB_EDGE, ply64 as u8, hm as u8))
}

/// Cell (rank `r`, file `f`) holds neither a piece nor a block.
pub open spec fn cell_clear(w: u64, b: u64, wl: u64, r: int, f: int) -> bool {
    &&& !bit(w, 8 * r + f)
    &&& !bit(b, 8 * r + f)
    &&& !bit(wl, 8 * r + f)
}

/// The number of consecutive clear cells from file `f` on in rank `r`.
pub open spec fn run_len(w: u64, b: u64, wl: u64, r: int, f: int) -> nat
    decreases 7 - f,
{
    if f < 0 || f >= 7 || !cell_clear(w, b, wl, r, f) {
        0
    } else {
        1 + run_len(w, b, wl, r, f + 1)
    }
}

/// The rank field for rank `r` from file `f` on: a piece or block
/// character per occupied cell, and one digit per run of clear cells.
pub open spec fn rank_cells(w: u64, b: u64, wl: u64, r: int, f: int) -> Seq<char>
    decreases 7 - f,
{
    if f < 0 || f >= 7 {
        Seq::empty()
    } else if bit(w, 8 * r + f) {
        seq!['x'] + rank_cells(w, b, wl, r, f + 1)
    } else if bit(b, 8 * r + f) {
        seq!['o'] + rank_cells(w, b, wl, r, f + 1)
    } else if bit(wl, 8 * r + f) {
        seq!['-'] + rank_cells(w, b, wl, r, f + 1)
    } else {
        let run = 1 + run_len(w, b, wl, r, f + 1);
        let next = if f + run > 7 {
            7
        } else {
            f + run
        };
        seq![digit_char(run as int)] + rank_cells(w, b, wl, r, next)
    }
}

/// The first `k` emitted rank fields, from rank 6 down, each but the last
/// followed by a separator.
pub open spec fn emitted_ranks(w: u64, b: u64, wl: u64, k: int) -> Seq<char>
    decreases k,
{
    if k <= 0 {
        Seq::empty()
    } else {
        emitted_ranks(w, b, wl, k - 1) + rank_cells(w, b, wl, 7 - k, 0) + (if 7 - k > 0 {
            seq!['/']
        } else {
            Seq::empty()
        })
    }
}

/// The whole record: the board field, the side to move, the quiet
/// counter, and the 1-based full-move counter, space-separated.
pub open spec fn fen_string_spec(w: u64, b: u64, wl: u64, ply: u8, hm: u8) -> Seq<char> {
    emitted_ranks(w, b, wl, 7) + seq![' '] + seq![
        if ply % 2 == 0 {
            'x'
        } else {
            'o'
        },
    ] + seq![' '] + dec_digits(hm as int) + seq![' '] + dec_digits(ply as int / 2 + 1)
}

/// A maximal clear stretch is what `run_len` counts.
proof fn lemma_run_len_exact(w: u64, b: u64, wl: u64, r: int, f: int, g: int)
    requires
        0 <= f <= g <= 7,
        forall|h: int| f <= h < g ==> cell_clear(w, b, wl, r, h),
        g == 7 || !cell_clear(w, b, wl, r, g),
    ensures
        run_len(w, b, wl, r, f) == g - f,
    decreases g - f,
{
    if f < g {
        lemma_run_len_exact(w, b, wl, r, f + 1, g);
    }
}

/// Whether cell (rank `r`, file `g`) holds neither a piece nor a block.
fn clear_at(w: u64, b: u64, wl: u64, r: u8, g: u8) -> (res: bool)
    requires
        r <= 6,
        g <= 6,
    ensures
        res == cell_clear(w, b, wl, r as int, g as int),
{
    let gsq: u8 = 8 * r + g;
    proof {
        let gi = 8 * (r as int) + g as int;
        crate::bits::lemma_bits_ops(w, b, gi);
        crate::bits::lemma_bits_ops(w | b, wl, gi);
        let x = w | b | wl;
        assert(gsq < 64 ==> (((x >> gsq) & 1u64 == 0u64) == !((x >> gsq) & 1u64 == 1u64)))
            by (bit_vector);
    }
    ((w | b | wl) >> gsq) & 1u64 == 0u64
}

/// Append one decimal digit character.
fn push_digit(s: &mut String, d: u8)
    requires
        d <= 9,
    ensures
        final(s)@ == old(s)@ + seq![digit_char(d as int)],
{
    proof {
        reveal_strlit("0");
        reveal_strlit("1");
        reveal_strlit("2");
        reveal_strlit("3");
        reveal_strlit("4");
        reveal_strlit("5");
        reveal_strlit("6");
        reveal_strlit("7");
        reveal_strlit("8");
        reveal_strlit("9");
    }
    match d {
        0 => s.append("0"),
        1 => s.append("1"),
        2 => s.append("2"),
        3 => s.append("3"),
        4 => s.append("4"),
        5 => s.append("5"),
        6 => s.append("6"),
        7 => s.append("7"),
        8 => s.append("8"),
        _ => s.append("9"),
    }
    proof {
        assert(final(s)@ =~= old(s)@ + seq![digit_char(d as int)]);
    }
}

/// Append a number in decimal, most significant digit first and without
/// leading zeros.
fn push_number(s: &mut String, n: u64)
    ensures
        final(s)@ == old(s)@ + dec_digits(n as int),
    decreases n,
{
    if n >= 10 {
        push_number(s, n / 10);
        push_digit(s, (n % 10) as u8);
        proof {
            assert(dec_digits(n as int) == dec_digits(n as int / 10) + seq![
                digit_char(n as int % 10),
            ]);
            assert(final(s)@ =~= old(s)@ + dec_digits(n as int));
        }
    } else {
        push_digit(s, n as u8);
        proof {
            assert(dec_digits(n as int) == seq![digit_char(n as int)]);
        }
    }
}

/// Write a record string for the given board components.
pub(crate) fn encode_fields(w: u64, b: u64, wl: u64, ply: u8, hm: u8) -> (r: String)
    ensures
        r@ == fen_string_spec(w, b, wl, ply, hm),
{
    proof {
        reveal_strlit("x");
        reveal_strlit("o");
        reveal_strlit("-");
        reveal_strlit("/");
        reveal_strlit(" ");
    }
    let mut s = String::new();
    let mut k: u8 = 0;
    while k < 7
        invariant
            k <= 7,
            s@ == emitted_ranks(w, b, wl, k as int),
        decreases 7 - k,
    {
        let r: u8 = 6 - k;
        let ghost rank_start = s@;
        let mut f: u8 = 0;
        while f < 7
            invariant
                f <= 7,
                r == 6 - k,
                k < 7,
                s@ + rank_cells(w, b, wl, r as int, f as int) == rank_start + rank_cells(
                    w,
                    b,
                    wl,
                    r as int,
                    0,
                ),
            decreases 7 - f,
        {
            let ghost f0 = f as int;
            proof {
                reveal_strlit("x");
                reveal_strlit("o");
                reveal_strlit("-");
            }
            let sq: u8 = 8 * r + f;
            if (w >> sq) & 1u64 == 1u64 {
                proof {
                    assert(bit(w, 8 * (r as int) + f0));
                    assert(rank_cells(w, b, wl, r as int, f0) == seq!['x'] + rank_cells(
                        w,
                        b,
                        wl,
                        r as int,
                        f0 + 1,
                    ));
                }
                s.append("x");
                f = f + 1;
            } else if (b >> sq) & 1u64 == 1u64 {
                proof {
                    assert(bit(b, 8 * (r as int) + f0));
                    assert(rank_cells(w, b, wl, r as int, f0) == seq!['o'] + rank_cells(
                        w,
                        b,
                        wl,
                        r as int,
                        f0 + 1,
                    ));
                }
                s.append("o");
                f = f + 1;
            } else if (wl >> sq) & 1u64 == 1u64 {
                proof {
                    assert(bit(wl, 8 * (r as int) + f0));
                    assert(rank_cells(w, b, wl, r as int, f0) == seq!['-'] + rank_cells(
                        w,
                        b,
                        wl,
                        r as int,
                        f0 + 1,
                    ));
                }
                s.append("-");
                f = f + 1;
            } else {
                proof {
                    assert(cell_clear(w, b, wl, r as int, f0));
                }
                let mut g: u8 = f + 1;
                while g < 7 && clear_at(w, b, wl, r, g)
                    invariant
                        f < g <= 7,
                        r <= 6,
                        forall|h: int| f <= h < g ==> cell_clear(w, b, wl, r as int, h),
                    decreases 7 - g,
                {
                    g = g + 1;
                }
                proof {
                    lemma_run_len_exact(w, b, wl, r as int, f as int, g as int);
                    assert(run_len(w, b, wl, r as int, f0) == 1 + run_len(
                        w,
                        b,
                        wl,
                        r as int,
                        f0 + 1,
                    ));
                    assert(rank_cells(w, b, wl, r as int, f0) == seq![
                        digit_char((g - f) as int),
                    ] + rank_cells(w, b, wl, r as int, g as int));
                }
                let run: u8 = g - f;
                push_digit(&mut s, run);
                f = g;
            }
            proof {
                assert(s@ + rank_cells(w, b, wl, r as int, f as int) =~= rank_start + rank_cells(
                    w,
                    b,
                    wl,
                    r as int,
                    0,
                ));
            }
        }
        proof {
            assert(rank_cells(w, b, wl, r as int, 7) == Seq::<char>::empty());
            assert(s@ =~= rank_start + rank_cells(w, b, wl, r as int, 0));
        }
        if r > 0 {
            s.append("/");
        }
        proof {
            reveal_strlit("/");
            assert(emitted_ranks(w, b, wl, k as int + 1) == emitted_ranks(w, b, wl, k as int)
                + rank_cells(w, b, wl, 6 - k as int, 0) + (if 6 - k as int > 0 {
                seq!['/']
            } else {
                Seq::<char>::empty()
            }));
            assert(rank_cells(w, b, wl, r as int, 7) == Seq::<char>::empty());
            assert(s@ =~= emitted_ranks(w, b, wl, k as int + 1));
        }
        k = k + 1;
    }
    s.append(" ");
    if ply % 2 == 0 {
        s.append("x");
    } else {
        s.append("o");
    }
    s.append(" ");
    push_number(&mut s, hm as u64);
    s.append(" ");
    push_number(&mut s, (ply / 2 + 1) as u64);
    proof {
        assert(s@ =~= fen_string_spec(w, b, wl, ply, hm));
    }
    s
}

/// Token scanning reads positions from the current index only.
proof fn lemma_tokens_shift(a: Seq<char>, bs: Seq<char>, k2: int, cur: Seq<char>)
    requires
        0 <= k2,
    ensures
        tokens_from(a + bs, a.len() + k2, cur) == tokens_from(bs, k2, cur),
    decreases bs.len() - k2,
{
    if k2 < bs.len() {
        assert((a + bs)[a.len() + k2] == bs[k2]);
        if bs[k2] == ' ' {
            lemma_tokens_shift(a, bs, k2 + 1, Seq::empty());
        } else {
            lemma_tokens_shift(a, bs, k2 + 1, cur + seq![bs[k2]]);
        }
    } else {
        assert(a.len() + k2 >= (a + bs).len());
    }
}

/// Scanning over a stretch without spaces accumulates it onto the token.
proof fn lemma_tokens_scan(cs: Seq<char>, k: int, m: int, cur: Seq<char>)
    requires
        0 <= k,
        0 <= m,
        k + m <= cs.len(),
        forall|h: int| k <= h < k + m ==> cs[h] != ' ',
    ensures
        tokens_from(cs, k, cur) == tokens_from(cs, k + m, cur + cs.subrange(k, k + m)),
    decreases m,
{
    if m == 0 {
        assert(cur + cs.subrange(k, k) =~= cur);
    } else {
        assert(tokens_from(cs, k, cur) == tokens_from(cs, k + 1, cur + seq![cs[k]]));
        lemma_tokens_scan(cs, k + 1, m - 1, cur + seq![cs[k]]);
        assert((cur + seq![cs[k]]) + cs.subrange(k + 1, k + m) =~= cur + cs.subrange(k, k + m));
    }
}

/// A space-free, nonempty token followed by a space starts the token list
/// of the remainder.
proof fn lemma_tokens_step(t: Seq<char>, rest: Seq<char>)
    requires
        t.len() > 0,
        forall|h: int| 0 <= h < t.len() ==> t[h] != ' ',
    ensures
        tokens(t + seq![' '] + rest) == seq![t] + tokens(rest),
{
    let cs = t + seq![' '] + rest;
    assert forall|h: int| 0 <= h < t.len() implies cs[h] != ' ' by {
        assert(cs[h] == t[h]);
    }
    lemma_tokens_scan(cs, 0, t.len() as int, Seq::empty());
    assert(Seq::<char>::empty() + cs.subrange(0, t.len() as int) =~= t);
    assert(cs[t.len() as int] == ' ');
    assert(tokens_from(cs, t.len() as int, t) == seq![t] + tokens_from(
        cs,
        t.len() as int + 1,
        Seq::empty(),
    ));
    assert(cs =~= (t + seq![' ']) + rest);
    lemma_tokens_shift(t + seq![' '], rest, 0, Seq::empty());
}

/// A space-free, nonempty final token is the whole token list.
proof fn lemma_tokens_last(t: Seq<char>)
    requires
        t.len() > 0,
        forall|h: int| 0 <= h < t.len() ==> t[h] != ' ',
    ensures
        tokens(t) == seq![t],
{
    lemma_tokens_scan(t, 0, t.len() as int, Seq::empty());
    assert(Seq::<char>::empty() + t.subrange(0, t.len() as int) =~= t);
}

/// Piece scanning reads positions from the current index only.
proof fn lemma_slash_shift(a: Seq<char>, bs: Seq<char>, k2: int, cur: Seq<char>)
    requires
        0 <= k2,
    ensures
        slash_pieces_from(a + bs, a.len() + k2, cur) == slash_pieces_from(bs, k2, cur),
    decreases bs.len() - k2,
{
    if k2 < bs.len() {
        assert((a + bs)[a.len() + k2] == bs[k2]);
        if bs[k2] == '/' {
            lemma_slash_shift(a, bs, k2 + 1, Seq::empty());
        } else {
            lemma_slash_shift(a, bs, k2 + 1, cur + seq![bs[k2]]);
        }
    } else {
        assert(a.len() + k2 >= (a + bs).len());
    }
}

/// Scanning over a stretch without separators accumulates it onto the
/// piece.
proof fn lemma_slash_scan(cs: Seq<char>, k: int, m: int, cur: Seq<char>)
    requires
        0 <= k,
        0 <= m,
        k + m <= cs.len(),
        forall|h: int| k <= h < k + m ==> cs[h] != '/',
    ensures
        slash_pieces_from(cs, k, cur) == slash_pieces_from(cs, k + m, cur + cs.subrange(k, k + m)),
    decreases m,
{
    if m == 0 {
        assert(cur + cs.subrange(k, k) =~= cur);
    } else {
        assert(slash_pieces_from(cs, k, cur) == slash_pieces_from(cs, k + 1, cur + seq![cs[k]]));
        lemma_slash_scan(cs, k + 1, m - 1, cur + seq![cs[k]]);
        assert((cur + seq![cs[k]]) + cs.subrange(k + 1, k + m) =~= cur + cs.subrange(k, k + m));
    }
}

/// A separator-free piece followed by a separator starts the piece list
/// of the remainder.
proof fn lemma_slash_step(t: Seq<char>, rest: Seq<char>)
    requires
        forall|h: int| 0 <= h < t.len() ==> t[h] != '/',
    ensures
        slash_pieces(t + seq!['/'] + rest) == seq![t] + slash_pieces(rest),
{
    let cs = t + seq!['/'] + rest;
    assert forall|h: int| 0 <= h < t.len() implies cs[h] != '/' by {
        assert(cs[h] == t[h]);
    }
    lemma_slash_scan(cs, 0, t.len() as int, Seq::empty());
    assert(Seq::<char>::empty() + cs.subrange(0, t.len() as int) =~= t);
    assert(cs[t.len() as int] == '/');
    assert(slash_pieces_from(cs, t.len() as int, t) == seq![t] + slash_pieces_from(
        cs,
        t.len() as int + 1,
        Seq::empty(),
    ));
    assert(cs =~= (t + seq!['/']) + rest);
    lemma_slash_shift(t + seq!['/'], rest, 0, Seq::empty());
}

/// A separator-free final piece is the whole piece list.
proof fn lemma_slash_last(t: Seq<char>)
    requires
        forall|h: int| 0 <= h < t.len() ==> t[h] != '/',
    ensures
        slash_pieces(t) == seq![t],
{
    lemma_slash_scan(t, 0, t.len() as int, Seq::empty());
    assert(Seq::<char>::empty() + t.subrange(0, t.len() as int) =~= t);
}

/// Every character of a rank field is a piece, block or digit character:
/// never a space or a separator.  Below file seven the field is nonempty.
proof fn lemma_rank_cells_chars(w: u64, b: u64, wl: u64, r: int, f: int)
    ensures
        forall|h: int|
            0 <= h < rank_cells(w, b, wl, r, f).len() ==> #[trigger] rank_cells(w, b, wl, r, f)[h]
                != ' ' && rank_cells(w, b, wl, r, f)[h] != '/',
        0 <= f < 7 ==> rank_cells(w, b, wl, r, f).len() > 0,
    decreases 7 - f,
{
    if 0 <= f < 7 {
        let s = rank_cells(w, b, wl, r, f);
        if bit(w, 8 * r + f) || bit(b, 8 * r + f) || bit(wl, 8 * r + f) {
            lemma_rank_cells_chars(w, b, wl, r, f + 1);
            let rest = rank_cells(w, b, wl, r, f + 1);
            assert forall|h: int| 0 <= h < s.len() implies #[trigger] s[h] != ' ' && s[h]
                != '/' by {
                if h > 0 {
                    assert(s[h] == rest[h - 1]);
                }
            }
        } else {
            let run = 1 + run_len(w, b, wl, r, f + 1);
            let next = if f + run > 7 {
                7int
            } else {
                f + run
            };
            lemma_rank_cells_chars(w, b, wl, r, next);
            let rest = rank_cells(w, b, wl, r, next);
            assert(run <= 8) by {
                lemma_run_len_bound(w, b, wl, r, f + 1);
            }
            assert(digit_char(run as int) != ' ' && digit_char(run as int) != '/');
            assert forall|h: int| 0 <= h < s.len() implies #[trigger] s[h] != ' ' && s[h]
                != '/' by {
                if h > 0 {
                    assert(s[h] == rest[h - 1]);
                }
            }
        }
    }
}

/// A run never reaches past the edge of the rank.
proof fn lemma_run_len_bound(w: u64, b: u64, wl: u64, r: int, f: int)
    requires
        0 <= f,
    ensures
        run_len(w, b, wl, r, f) <= 7 - f || run_len(w, b, wl, r, f) == 0,
    decreases 7 - f,
{
    if f < 7 && cell_clear(w, b, wl, r, f) {
        lemma_run_len_bound(w, b, wl, r, f + 1);
    }
}

/// The board field never holds a space, and emitting at least one rank
/// makes it nonempty.
proof fn lemma_emitted_chars(w: u64, b: u64, wl: u64, k: int)
    ensures
        forall|h: int|
            0 <= h < emitted_ranks(w, b, wl, k).len() ==> #[trigger] emitted_ranks(w, b, wl, k)[h]
                != ' ',
        1 <= k <= 7 ==> emitted_ranks(w, b, wl, k).len() > 0,
    decreases k,
{
    if k > 0 {
        lemma_emitted_chars(w, b, wl, k - 1);
        lemma_rank_cells_chars(w, b, wl, 7 - k, 0);
        let s = emitted_ranks(w, b, wl, k);
        let prev = emitted_ranks(w, b, wl, k - 1);
        let rc = rank_cells(w, b, wl, 7 - k, 0);
        assert forall|h: int| 0 <= h < s.len() implies #[trigger] s[h] != ' ' by {
            if h < prev.len() {
                assert(s[h] == prev[h]);
            } else if h < prev.len() + rc.len() {
                assert(s[h] == rc[h - prev.len()]);
            } else {
                assert(s[h] == '/');
            }
        }
    }
}

/// Decimal digits are never spaces, and a number has at least one.
proof fn lemma_dec_chars(n: int)
    ensures
        forall|h: int|
            0 <= h < dec_digits(n).len() ==> #[trigger] dec_digits(n)[h] != ' ' && dec_digits(
                n,
            )[h] != '/',
        dec_digits(n).len() > 0,
    decreases n,
{
    if n >= 10 {
        lemma_dec_chars(n / 10);
    }
}

/// Reading one more digit extends the value by one decimal place.
proof fn lemma_parse_snoc(cs: Seq<char>, c: char, k: int, acc: int, limit: int)
    requires
        0 <= k <= cs.len(),
    ensures
        parse_dec(cs + seq![c], k, acc, limit) == (match parse_dec(cs, k, acc, limit) {
            None => None::<int>,
            Some(v) => {
                match digit_val(c) {
                    None => None::<int>,
                    Some(d) => {
                        if v * 10 + d > limit {
                            None::<int>
                        } else {
                            Some(v * 10 + d)
                        }
                    },
                }
            },
        }),
    decreases cs.len() - k,
{
    if k < cs.len() {
        assert((cs + seq![c])[k] == cs[k]);
        match digit_val(cs[k]) {
            None => {
                assert(parse_dec(cs + seq![c], k, acc, limit) is None);
            },
            Some(d) => {
                if acc * 10 + d <= limit {
                    lemma_parse_snoc(cs, c, k + 1, acc * 10 + d, limit);
                    assert(parse_dec(cs + seq![c], k, acc, limit) == parse_dec(
                        cs + seq![c],
                        k + 1,
                        acc * 10 + d,
                        limit,
                    ));
                    assert(parse_dec(cs, k, acc, limit) == parse_dec(
                        cs,
                        k + 1,
                        acc * 10 + d,
                        limit,
                    ));
                } else {
                    assert(parse_dec(cs + seq![c], k, acc, limit) is None);
                }
            },
        }
    } else {
        assert((cs + seq![c])[k] == c);
        assert(parse_dec(cs, k, acc, limit) == Some(acc));
        match digit_val(c) {
            None => {
                assert(parse_dec(cs + seq![c], k, acc, limit) is None);
            },
            Some(d) => {
                if acc * 10 + d <= limit {
                    assert(parse_dec(cs + seq![c], k, acc, limit) == parse_dec(
                        cs + seq![c],
                        k + 1,
                        acc * 10 + d,
                        limit,
                    ));
                    assert(parse_dec(cs + seq![c], k + 1, acc * 10 + d, limit) == Some(
                        acc * 10 + d,
                    ));
                }
            },
        }
    }
}

/// Printing a number and reading it back yields the number, whenever it
/// fits the reader's limit.
proof fn lemma_number_roundtrip(m: int, limit: int)
    requires
        0 <= m <= limit,
    ensures
        parse_number(dec_digits(m), limit) == Some(m),
    decreases m,
{
    lemma_dec_chars(m);
    if m < 10 {
        assert(digit_val(digit_char(m)) == Some(m));
        assert(parse_dec(seq![digit_char(m)], 0, 0, limit) == parse_dec(
            seq![digit_char(m)],
            1,
            m,
            limit,
        ));
    } else {
        lemma_number_roundtrip(m / 10, limit);
        lemma_parse_snoc(dec_digits(m / 10), digit_char(m % 10), 0, 0, limit);
        assert(digit_val(digit_char(m % 10)) == Some(m % 10));
        assert((m / 10) * 10 + m % 10 == m);
    }
}

/// Rank-field reading looks at positions from the current index only.
proof fn lemma_parse_rank_shift(
    a: Seq<char>,
    bs: Seq<char>,
    k2: int,
    ridx: int,
    f: int,
    w: u64,
    b: u64,
    wl: u64,
)
    requires
        0 <= k2,
    ensures
        parse_rank_at(a + bs, a.len() + k2, ridx, f, w, b, wl) == parse_rank_at(
            bs,
            k2,
            ridx,
            f,
            w,
            b,
            wl,
        ),
    decreases bs.len() - k2,
{
    if k2 < bs.len() {
        assert((a + bs)[a.len() + k2] == bs[k2]);
        if f < 8 {
            let c = bs[k2];
            match digit_val(c) {
                Some(d) => {
                    lemma_parse_rank_shift(a, bs, k2 + 1, ridx, f + d, w, b, wl);
                },
                None => {
                    let sq = (8 * (6 - ridx) + f) as u64;
                    if c == 'x' {
                        lemma_parse_rank_shift(a, bs, k2 + 1, ridx, f + 1, w | (1u64 << sq), b, wl);
                    } else if c == 'o' {
                        lemma_parse_rank_shift(a, bs, k2 + 1, ridx, f + 1, w, b | (1u64 << sq), wl);
                    } else if c == '-' {
                        lemma_parse_rank_shift(a, bs, k2 + 1, ridx, f + 1, w, b, wl | (1u64 << sq));
                    }
                },
            }
        }
    } else {
        assert(a.len() + k2 >= (a + bs).len());
    }
}

/// Every cell a run counts is clear.
proof fn lemma_run_len_clear(w: u64, b: u64, wl: u64, r: int, f: int)
    ensures
        forall|h: int| f <= h < f + run_len(w, b, wl, r, f) ==> cell_clear(w, b, wl, r, h),
    decreases 7 - f,
{
    if 0 <= f < 7 && cell_clear(w, b, wl, r, f) {
        lemma_run_len_clear(w, b, wl, r, f + 1);
    }
}

/// Cell `i` lies in the part of rank `r` already written: an earlier rank,
/// or an earlier file of rank `r`.
pub open spec fn cell_done(r: int, f: int, i: int) -> bool {
    sq_playable(i) && (sq_rank(i) > r || (sq_rank(i) == r && sq_file(i) < f))
}

/// Reading back the written tail of a rank extends the accumulated words
/// by exactly the remaining cells of that rank.
proof fn lemma_rank_cells_parse(
    w: u64,
    b: u64,
    wl: u64,
    r: int,
    f: int,
    wa: u64,
    ba: u64,
    wla: u64,
)
    requires
        words_disjoint(w, b, wl),
        0 <= r <= 6,
        0 <= f <= 7,
        forall|i: int| #[trigger] bit(wa, i) == (bit(w, i) && cell_done(r, f, i)),
        forall|i: int| #[trigger] bit(ba, i) == (bit(b, i) && cell_done(r, f, i)),
        forall|i: int| #[trigger] bit(wla, i) == (bit(wl, i) && cell_done(r, f, i)),
    ensures
        ({
            let res = parse_rank_at(rank_cells(w, b, wl, r, f), 0, 6 - r, f, wa, ba, wla);
            &&& res is Ok
            &&& forall|i: int| #[trigger] bit(res->Ok_0.0, i) == (bit(w, i) && cell_done(r, 7, i))
            &&& forall|i: int| #[trigger] bit(res->Ok_0.1, i) == (bit(b, i) && cell_done(r, 7, i))
            &&& forall|i: int| #[trigger] bit(res->Ok_0.2, i) == (bit(wl, i) && cell_done(r, 7, i))
        }),
    decreases 7 - f,
{
    let cs = rank_cells(w, b, wl, r, f);
    if f == 7 {
        assert(cs == Seq::<char>::empty());
        assert(parse_rank_at(cs, 0, 6 - r, f, wa, ba, wla) == Ok::<(u64, u64, u64), FenError>(
            (wa, ba, wla),
        ));
    } else {
        let sq = (8 * r + f) as u64;
        assert(8 * (6 - (6 - r)) + f == 8 * r + f);
        assert(sq < 64);
        assert(sq_rank(sq as int) == r && sq_file(sq as int) == f);
        assert(sq_playable(sq as int));
        crate::bits::lemma_single_bit(sq, sq as int);
        let m = 1u64 << sq;
        if bit(w, 8 * r + f) || bit(b, 8 * r + f) || bit(wl, 8 * r + f) {
            let occupier: int = if bit(w, 8 * r + f) {
                0
            } else if bit(b, 8 * r + f) {
                1
            } else {
                2
            };
            let c = if occupier == 0 {
                'x'
            } else if occupier == 1 {
                'o'
            } else {
                '-'
            };
            let rest = rank_cells(w, b, wl, r, f + 1);
            assert(cs == seq![c] + rest);
            assert(cs[0] == c);
            assert(digit_val(c) is None);
            let wa2 = if occupier == 0 {
                wa | m
            } else {
                wa
            };
            let ba2 = if occupier == 1 {
                ba | m
            } else {
                ba
            };
            let wla2 = if occupier == 2 {
                wla | m
            } else {
                wla
            };
            assert forall|i: int| #[trigger] bit(wa2, i) == (bit(w, i) && cell_done(
                r,
                f + 1,
                i,
            )) by {
                if 0 <= i < 64 {
                    crate::bits::lemma_bits_ops(wa, m, i);
                    crate::bits::lemma_single_bit(sq, i);
                    if sq_playable(i) {
                        crate::bits::lemma_div_mod_cell(i);
                    }
                }
            }
            assert forall|i: int| #[trigger] bit(ba2, i) == (bit(b, i) && cell_done(
                r,
                f + 1,
                i,
            )) by {
                if 0 <= i < 64 {
                    crate::bits::lemma_bits_ops(ba, m, i);
                    crate::bits::lemma_single_bit(sq, i);
                    if sq_playable(i) {
                        crate::bits::lemma_div_mod_cell(i);
                    }
                }
            }
            assert forall|i: int| #[trigger] bit(wla2, i) == (bit(wl, i) && cell_done(
                r,
                f + 1,
                i,
            )) by {
                if 0 <= i < 64 {
                    crate::bits::lemma_bits_ops(wla, m, i);
                    crate::bits::lemma_single_bit(sq, i);
                    if sq_playable(i) {
                        crate::bits::lemma_div_mod_cell(i);
                    }
                }
            }
            lemma_rank_cells_parse(w, b, wl, r, f + 1, wa2, ba2, wla2);
            lemma_parse_rank_shift(seq![c], rest, 0, 6 - r, f + 1, wa2, ba2, wla2);
            assert(parse_rank_at(cs, 0, 6 - r, f, wa, ba, wla) == parse_rank_at(
                cs,
                1,
                6 - r,
                f + 1,
                wa2,
                ba2,
                wla2,
            ));
        } else {
            assert(cell_clear(w, b, wl, r, f));
            let run = 1 + run_len(w, b, wl, r, f + 1);
            lemma_run_len_bound(w, b, wl, r, f + 1);
            assert(1 <= run <= 7 - f);
            let next = f + run;
            let rest = rank_cells(w, b, wl, r, next);
            assert(cs == seq![digit_char(run as int)] + rest);
            assert(digit_val(digit_char(run as int)) == Some(run as int));
            lemma_run_len_clear(w, b, wl, r, f);
            assert(run_len(w, b, wl, r, f) == run);
            assert forall|i: int| #[trigger] bit(wa, i) == (bit(w, i) && cell_done(
                r,
                next,
                i,
            )) by {
                if 0 <= i < 64 && sq_playable(i) {
                    crate::bits::lemma_div_mod_cell(i);
                    if sq_rank(i) == r && f <= sq_file(i) < next {
                        assert(cell_clear(w, b, wl, r, sq_file(i)));
                        assert(i == 8 * r + sq_file(i));
                    }
                }
            }
            assert forall|i: int| #[trigger] bit(ba, i) == (bit(b, i) && cell_done(
                r,
                next,
                i,
            )) by {
                if 0 <= i < 64 && sq_playable(i) {
                    crate::bits::lemma_div_mod_cell(i);
                    if sq_rank(i) == r && f <= sq_file(i) < next {
                        assert(cell_clear(w, b, wl, r, sq_file(i)));
                        assert(i == 8 * r + sq_file(i));
                    }
                }
            }
            assert forall|i: int| #[trigger] bit(wla, i) == (bit(wl, i) && cell_done(
                r,
                next,
                i,
            )) by {
                if 0 <= i < 64 && sq_playable(i) {
                    crate::bits::lemma_div_mod_cell(i);
                    if sq_rank(i) == r && f <= sq_file(i) < next {
                        assert(cell_clear(w, b, wl, r, sq_file(i)));
                        assert(i == 8 * r + sq_file(i));
                    }
                }
            }
            lemma_rank_cells_parse(w, b, wl, r, next, wa, ba, wla);
            lemma_parse_rank_shift(
                seq![digit_char(run as int)],
                rest,
                0,
                6 - r,
                next,
                wa,
                ba,
                wla,
            );
            assert(parse_rank_at(cs, 0, 6 - r, f, wa, ba, wla) == parse_rank_at(
                cs,
                1,
                6 - r,
                next,
                wa,
                ba,
                wla,
            ));
        }
    }
}

/// Cell `i` lies in a rank already fully written: above rank `6 - idx`.
pub open spec fn rank_done(idx: int, i: int) -> bool {
    sq_playable(i) && sq_rank(i) > 6 - idx
}

/// Reading back the written rank fields from `idx` on completes the
/// accumulated words to the playable parts of the originals.
proof fn lemma_ranks_roundtrip(
    w: u64,
    b: u64,
    wl: u64,
    fields: Seq<Seq<char>>,
    idx: int,
    wa: u64,
    ba: u64,
    wla: u64,
)
    requires
        words_disjoint(w, b, wl),
        0 <= idx <= 7,
        fields.len() == 7,
        forall|j: int| idx <= j < 7 ==> fields[j] == rank_cells(w, b, wl, 6 - j, 0),
        forall|i: int| #[trigger] bit(wa, i) == (bit(w, i) && rank_done(idx, i)),
        forall|i: int| #[trigger] bit(ba, i) == (bit(b, i) && rank_done(idx, i)),
        forall|i: int| #[trigger] bit(wla, i) == (bit(wl, i) && rank_done(idx, i)),
    ensures
        ({
            let res = parse_ranks(fields, idx, wa, ba, wla);
            &&& res is Ok
            &&& forall|i: int| #[trigger] bit(res->Ok_0.0, i) == (bit(w, i) && sq_playable(i))
            &&& forall|i: int| #[trigger] bit(res->Ok_0.1, i) == (bit(b, i) && sq_playable(i))
            &&& forall|i: int| #[trigger] bit(res->Ok_0.2, i) == (bit(wl, i) && sq_playable(i))
        }),
    decreases 7 - idx,
{
    if idx == 7 {
        assert forall|i: int| rank_done(7, i) == sq_playable(i) by {}
    } else {
        let r = 6 - idx;
        assert forall|i: int| cell_done(r, 0, i) == rank_done(idx, i) by {}
        lemma_rank_cells_parse(w, b, wl, r, 0, wa, ba, wla);
        let r1 = parse_rank_at(fields[idx], 0, idx, 0, wa, ba, wla);
        assert(fields[idx] == rank_cells(w, b, wl, r, 0));
        assert(r1 == parse_rank_at(rank_cells(w, b, wl, r, 0), 0, 6 - r, 0, wa, ba, wla));
        let t1 = r1->Ok_0;
        assert forall|i: int| cell_done(r, 7, i) == rank_done(idx + 1, i) by {}
        lemma_ranks_roundtrip(w, b, wl, fields, idx + 1, t1.0, t1.1, t1.2);
    }
}

/// The board field splits back into its seven rank fields, most
/// significant rank first.
proof fn lemma_board_split(w: u64, b: u64, wl: u64)
    ensures
        slash_pieces(emitted_ranks(w, b, wl, 7)) == seq![
            rank_cells(w, b, wl, 6, 0),
            rank_cells(w, b, wl, 5, 0),
            rank_cells(w, b, wl, 4, 0),
            rank_cells(w, b, wl, 3, 0),
            rank_cells(w, b, wl, 2, 0),
            rank_cells(w, b, wl, 1, 0),
            rank_cells(w, b, wl, 0, 0),
        ],
{
    let r6 = rank_cells(w, b, wl, 6, 0);
    let r5 = rank_cells(w, b, wl, 5, 0);
    let r4 = rank_cells(w, b, wl, 4, 0);
    let r3 = rank_cells(w, b, wl, 3, 0);
    let r2 = rank_cells(w, b, wl, 2, 0);
    let r1 = rank_cells(w, b, wl, 1, 0);
    let r0 = rank_cells(w, b, wl, 0, 0);
    lemma_rank_cells_chars(w, b, wl, 6, 0);
    lemma_rank_cells_chars(w, b, wl, 5, 0);
    lemma_rank_cells_chars(w, b, wl, 4, 0);
    lemma_rank_cells_chars(w, b, wl, 3, 0);
    lemma_rank_cells_chars(w, b, wl, 2, 0);
    lemma_rank_cells_chars(w, b, wl, 1, 0);
    lemma_rank_cells_chars(w, b, wl, 0, 0);
    let t0 = r0;
    let t1 = r1 + seq!['/'] + t0;
    let t2 = r2 + seq!['/'] + t1;
    let t3 = r3 + seq!['/'] + t2;
    let t4 = r4 + seq!['/'] + t3;
    let t5 = r5 + seq!['/'] + t4;
    let t6 = r6 + seq!['/'] + t5;
    assert(emitted_ranks(w, b, wl, 0) == Seq::<char>::empty());
    assert(emitted_ranks(w, b, wl, 1) == emitted_ranks(w, b, wl, 0) + r6 + seq!['/']);
    assert(emitted_ranks(w, b, wl, 2) == emitted_ranks(w, b, wl, 1) + r5 + seq!['/']);
    assert(emitted_ranks(w, b, wl, 3) == emitted_ranks(w, b, wl, 2) + r4 + seq!['/']);
    assert(emitted_ranks(w, b, wl, 4) == emitted_ranks(w, b, wl, 3) + r3 + seq!['/']);
    assert(emitted_ranks(w, b, wl, 5) == emitted_ranks(w, b, wl, 4) + r2 + seq!['/']);
    assert(emitted_ranks(w, b, wl, 6) == emitted_ranks(w, b, wl, 5) + r1 + seq!['/']);
    assert(emitted_ranks(w, b, wl, 7) == emitted_ranks(w, b, wl, 6) + r0 + Seq::<char>::empty());
    assert(emitted_ranks(w, b, wl, 7) =~= t6);
    lemma_slash_step(r6, t5);
    lemma_slash_step(r5, t4);
    lemma_slash_step(r4, t3);
    lemma_slash_step(r3, t2);
    lemma_slash_step(r2, t1);
    lemma_slash_step(r1, t0);
    lemma_slash_last(r0);
    assert(slash_pieces(t6) =~= seq![r6, r5, r4, r3, r2, r1, r0]);
}

/// A record written from well-formed board components reads back to
/// exactly those components: decoding inverts encoding.
pub proof fn lemma_fen_roundtrip(w: u64, b: u64, wl: u64, ply: u8, hm: u8)
    requires
        crate::bits::playable_only(w),
        crate::bits::playable_only(b),
        words_disjoint(w, b, wl),
        forall|i: int| 0 <= i < 64 && !sq_playable(i) ==> bit(wl, i),
    ensures
        parse_fen_spec(fen_string_spec(w, b, wl, ply, hm)) == Ok::<
            (u64, u64, u64, u8, u8),
            FenError,
        >((w, b, wl, ply, hm)),
{
    let e = emitted_ranks(w, b, wl, 7);
    let stm = if ply % 2 == 0 {
        'x'
    } else {
        'o'
    };
    let hmd = dec_digits(hm as int);
    let fmd = dec_digits(ply as int / 2 + 1);
    let s = fen_string_spec(w, b, wl, ply, hm);
    lemma_emitted_chars(w, b, wl, 7);
    lemma_dec_chars(hm as int);
    lemma_dec_chars(ply as int / 2 + 1);
    let rest_b = hmd + seq![' '] + fmd;
    let rest_a = seq![stm] + seq![' '] + rest_b;
    assert(s =~= e + seq![' '] + rest_a);
    lemma_tokens_step(e, rest_a);
    lemma_tokens_step(seq![stm], rest_b);
    lemma_tokens_step(hmd, fmd);
    lemma_tokens_last(fmd);
    let parts = tokens(s);
    assert(parts =~= seq![e, seq![stm], hmd, fmd]);
    assert(parts.len() == 4);
    assert(parts[0] == e && parts[1] == seq![stm] && parts[2] == hmd && parts[3] == fmd);
    // The board field.
    lemma_board_split(w, b, wl);
    let fields = slash_pieces(e);
    assert(fields.len() == 7);
    assert forall|j: int| 0 <= j < 7 implies fields[j] == rank_cells(w, b, wl, 6 - j, 0) by {}
    assert forall|i: int| !bit(0u64, i) by {
        if 0 <= i < 64 {
            crate::bits::lemma_bits_ops(0, 0, i);
        }
    }
    lemma_ranks_roundtrip(w, b, wl, fields, 0, 0, 0, 0);
    let t = parse_ranks(fields, 0, 0, 0, 0)->Ok_0;
    crate::bits::lemma_playable_only_bits(w);
    crate::bits::lemma_playable_only_bits(b);
    assert forall|i: int| 0 <= i < 64 implies #[trigger] bit(t.0, i) == bit(w, i) by {}
    assert forall|i: int| 0 <= i < 64 implies #[trigger] bit(t.1, i) == bit(b, i) by {}
    crate::bits::lemma_word_eq(t.0, w);
    crate::bits::lemma_word_eq(t.1, b);
    assert forall|i: int| 0 <= i < 64 implies #[trigger] bit(t.2 | BB_EDGE, i) == bit(wl, i) by {
        crate::bits::lemma_bits_ops(t.2, BB_EDGE, i);
        crate::bits::lemma_mask_bits(i);
    }
    crate::bits::lemma_word_eq(t.2 | BB_EDGE, wl);
    // The side to move, and the two counters.
    assert(stm == 'x' || stm == 'o');
    lemma_number_roundtrip(hm as int, 255);
    lemma_number_roundtrip(ply as int / 2 + 1, 0xFFFF_FFFF);
    let fm = ply as int / 2 + 1;
    assert(fm != 0);
    let stm_bit: int = if stm == 'o' {
        1
    } else {
        0
    };
    assert(stm_bit == ply as int % 2);
    assert((fm - 1) * 2 + stm_bit == ply as int);
    assert((ply as int) % 256 == ply as int);
}

/// Pushing a token extends the deep view by that token's characters.
proof fn lemma_deep_view_push(
    old_vec: Seq<Vec<char>>,
    new_vec: Seq<Vec<char>>,
    x: Vec<char>,
    old_dv: Seq<Seq<char>>,
    new_dv: Seq<Seq<char>>,
)
    requires
        new_vec == old_vec.push(x),
        old_dv == Seq::new(old_vec.len(), |i: int| old_vec[i].deep_view()),
        new_dv == Seq::new(new_vec.len(), |i: int| new_vec[i].deep_view()),
    ensures
        new_dv == old_dv + seq![x@],
{
    assert(x.deep_view() =~= x@);
    assert forall|i: int| 0 <= i < new_dv.len() implies new_dv[i] == (old_dv + seq![x@])[i] by {
        if i < old_dv.len() {
            assert(new_vec[i] == old_vec[i]);
        } else {
            assert(new_vec[i] == x);
        }
    }
    assert(new_dv =~= old_dv + seq![x@]);
}

} // verus!
