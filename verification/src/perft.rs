//! Move-tree node counting, the correctness oracle for the generator and
//! move application combined.

use vstd::prelude::*;
use crate::board::Board;
use crate::moves::Move;

verus! {

/// The number of move sequences of the given depth from this position:
/// one for depth zero, else the sum over every legal move of the count one
/// level down.  Boards are never mutated: each branch works on the value
/// `apply_spec` denotes.
pub open spec fn perft_spec(b: Board, depth: nat) -> nat
    decreases depth, b.legal_moves().len() + 1,
{
    if depth == 0 {
        1
    } else {
        perft_sum(b, b.legal_moves(), 0, depth)
    }
}

/// The summed subtree counts of the moves from index `k` on.
pub open spec fn perft_sum(b: Board, moves: Seq<Move>, k: int, depth: nat) -> nat
    decreases depth, moves.len() - k,
{
    if k < 0 || k >= moves.len() || depth == 0 {
        0
    } else {
        perft_spec(b.apply_spec(moves[k]), (depth - 1) as nat) + perft_sum(b, moves, k + 1, depth)
    }
}

/// At depth one every subtree counts a single node, so the sum from `k` on
/// is the number of remaining moves.
proof fn lemma_perft_sum_depth_one(b: Board, moves: Seq<Move>, k: int)
    requires
        0 <= k <= moves.len(),
    ensures
        perft_sum(b, moves, k, 1) == moves.len() - k,
    decreases moves.len() - k,
{
    if k < moves.len() {
        lemma_perft_sum_depth_one(b, moves, k + 1);
        assert(perft_spec(b.apply_spec(moves[k]), 0) == 1);
    }
}

/// Count the move-tree nodes of the given depth.  The board is only read:
/// every branch is explored on a copy.
pub fn perft(board: &Board, depth: u8) -> (count: u64)
    requires
        board.wf(),
        board.ply_count() as int + depth as int <= 256,
        perft_spec(*board, depth as nat) <= u64::MAX,
    ensures
        count == perft_spec(*board, depth as nat),
    decreases depth,
{
    if depth == 0 {
        return 1;
    }
    let moves = board.generate_moves();
    if depth == 1 {
        proof {
            lemma_perft_sum_depth_one(*board, moves@, 0);
        }
        return moves.len() as u64;
    }
    let mut count: u64 = 0;
    let mut k: usize = 0;
    while k < moves.len()
        invariant
            board.wf(),
            moves@ == board.legal_moves(),
            2 <= depth,
            board.ply_count() as int + depth as int <= 256,
            perft_spec(*board, depth as nat) <= u64::MAX,
            k <= moves.len(),
            count + perft_sum(*board, moves@, k as int, depth as nat) == perft_spec(
                *board,
                depth as nat,
            ),
        decreases moves.len() - k,
    {
        let mv = moves[k];
        proof {
            assert(board.legal_moves().contains(mv));
        }
        let mut child = *board;
        child.make_move(mv);
        proof {
            assert(perft_spec(child, (depth - 1) as nat) + perft_sum(
                *board,
                moves@,
                k as int + 1,
                depth as nat,
            ) == perft_sum(*board, moves@, k as int, depth as nat));
        }
        let sub = perft(&child, depth - 1);
        count = count + sub;
        k = k + 1;
    }
    count
}

/// The record strings of every position exactly `depth` moves below this
/// one, in enumeration order.
pub open spec fn fens_spec(b: Board, depth: nat) -> Seq<Seq<char>>
    decreases depth, b.legal_moves().len() + 1,
{
    if depth == 0 {
        seq![b.fen_spec()]
    } else {
        fens_sum(b, b.legal_moves(), 0, depth)
    }
}

/// The concatenated record strings below the moves from index `k` on.
pub open spec fn fens_sum(b: Board, moves: Seq<Move>, k: int, depth: nat) -> Seq<Seq<char>>
    decreases depth, moves.len() - k,
{
    if k < 0 || k >= moves.len() || depth == 0 {
        Seq::empty()
    } else {
        fens_spec(b.apply_spec(moves[k]), (depth - 1) as nat) + fens_sum(b, moves, k + 1, depth)
    }
}

/// Appending to a vector of strings concatenates the character sequences
/// it denotes.
proof fn lemma_strings_deep_view_concat(
    a: Seq<String>,
    bs: Seq<String>,
    c: Seq<String>,
    a_dv: Seq<Seq<char>>,
    b_dv: Seq<Seq<char>>,
    c_dv: Seq<Seq<char>>,
)
    requires
        c == a + bs,
        a_dv == Seq::new(a.len(), |i: int| a[i].deep_view()),
        b_dv == Seq::new(bs.len(), |i: int| bs[i].deep_view()),
        c_dv == Seq::new(c.len(), |i: int| c[i].deep_view()),
    ensures
        c_dv == a_dv + b_dv,
{
    assert forall|i: int| 0 <= i < c_dv.len() implies c_dv[i] == (a_dv + b_dv)[i] by {
        if i < a.len() {
            assert(c[i] == a[i]);
        } else {
            assert(c[i] == bs[i - a.len()]);
        }
    }
    assert(c_dv =~= a_dv + b_dv);
}

/// Collect the record strings of every position exactly `depth` moves
/// down, in enumeration order.  The starting board itself is only read.
pub fn generate_depth_n_fens(board: Board, depth: u8) -> (r: Vec<String>)
    requires
        board.wf(),
        board.ply_count() as int + depth as int <= 255,
    ensures
        r.deep_view() == fens_spec(board, depth as nat),
    decreases depth,
{
    let mut out: Vec<String> = Vec::new();
    if depth == 0 {
        let s = board.fen();
        out.push(s);
        proof {
            assert(out.deep_view() =~= seq![board.fen_spec()]);
        }
        return out;
    }
    let moves = board.generate_moves();
    let mut k: usize = 0;
    while k < moves.len()
        invariant
            board.wf(),
            moves@ == board.legal_moves(),
            1 <= depth,
            board.ply_count() as int + depth as int <= 255,
            k <= moves.len(),
            out.deep_view() + fens_sum(board, moves@, k as int, depth as nat) == fens_spec(
                board,
                depth as nat,
            ),
        decreases moves.len() - k,
    {
        let mv = moves[k];
        proof {
            assert(board.legal_moves().contains(mv));
        }
        let mut child = board;
        child.make_move(mv);
        proof {
            assert(fens_spec(child, (depth - 1) as nat) + fens_sum(
                board,
                moves@,
                k as int + 1,
                depth as nat,
            ) == fens_sum(board, moves@, k as int, depth as nat));
        }
        let mut sub = generate_depth_n_fens(child, depth - 1);
        let ghost old_out = out@;
        let ghost old_out_dv = out.deep_view();
        let ghost old_sub = sub@;
        let ghost sub_dv = sub.deep_view();
        out.append(&mut sub);
        proof {
            lemma_strings_deep_view_concat(
                old_out,
                old_sub,
                out@,
                old_out_dv,
                sub_dv,
                out.deep_view(),
            );
        }
        k = k + 1;
    }
    out
}

} // verus!
