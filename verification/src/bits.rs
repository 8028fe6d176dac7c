//! Bitboard primitives: the playable-region mask, masked one-cell shifts,
//! and the one-ring expansion that move generation and captures share.

use vstd::prelude::*;

verus! {

/// The 49 playable cells: everything outside the blocked top rank and
/// blocked rightmost file of the 8x8 backing grid.
pub const BB_ALL: u64 = 0x007F_7F7F_7F7F_7F7F;
/// The complement of `BB_ALL`: the blocked rank and file that carve the
/// 7x7 board out of a 64-bit word.
pub const BB_EDGE: u64 = 0xFF80_8080_8080_8080;

/// The file (column) of a raw square index on the 8x8 grid.
pub open spec fn sq_file(i: int) -> int {
    i % 8
}

/// The rank (row) of a raw square index on the 8x8 grid.
pub open spec fn sq_rank(i: int) -> int {
    i / 8
}

/// A raw index denotes a cell of the 7x7 playable region.
pub open spec fn sq_playable(i: int) -> bool {
    0 <= i < 64 && i % 8 < 7 && i / 8 < 7
}

/// Bit `i` of the bitboard is set.
pub open spec fn bit(bb: u64, i: int) -> bool {
    0 <= i < 64 && (bb >> (i as u64)) & 1u64 == 1u64
}

/// Every set bit of the bitboard lies in the playable region.
pub open spec fn playable_only(bb: u64) -> bool {
    bb & BB_EDGE == 0
}

/// Chebyshev (king-move) distance between two raw square indices.
pub open spec fn chebyshev(a: int, b: int) -> int {
    vstd::math::max(
        vstd::math::abs(sq_file(a) - sq_file(b)) as int,
        vstd::math::abs(sq_rank(a) - sq_rank(b)) as int,
    )
}

/// Some set bit of `bb` lies within Chebyshev distance `d` of cell `i`.
pub open spec fn reaches(bb: u64, i: int, d: int) -> bool {
    exists|j: int| bit(bb, j) && chebyshev(j, i) <= d
}

/// One-ring expansion, at the specification level: the same shift-and-union
/// word computation the executable code performs.
pub open spec fn expand_spec(bb: u64) -> u64 {
    let vertical = ((bb << 8) & BB_ALL) | ((bb >> 8) & BB_ALL) | bb;
    (vertical | ((vertical << 1) & BB_ALL) | ((vertical >> 1) & BB_ALL)) & BB_ALL
}

fn shift_up(bb: u64) -> (r: u64)
    ensures
        r == (bb << 8) & BB_ALL,
{
    (bb << 8) & BB_ALL
}

fn shift_down(bb: u64) -> (r: u64)
    ensures
        r == (bb >> 8) & BB_ALL,
{
    (bb >> 8) & BB_ALL
}

fn shift_left(bb: u64) -> (r: u64)
    ensures
        r == (bb << 1) & BB_ALL,
{
    (bb << 1) & BB_ALL
}

fn shift_right(bb: u64) -> (r: u64)
    ensures
        r == (bb >> 1) & BB_ALL,
{
    (bb >> 1) & BB_ALL
}

/// One-ring expansion: all playable cells within Chebyshev distance 1 of a
/// set bit, computed as a vertical shift-union followed by a horizontal one.
pub fn expand(bb: u64) -> (r: u64)
    ensures
        r == expand_spec(bb),
{
    let vertical = shift_up(bb) | shift_down(bb) | bb;
    (vertical | shift_left(vertical) | shift_right(vertical)) & BB_ALL
}

/// What one-ring expansion means, cell by cell: a playable cell is in the
/// expansion exactly when some set bit of the (playable-only) input is at
/// Chebyshev distance at most 1.
pub proof fn lemma_expand_sem(bb: u64, i: int)
    requires
        playable_only(bb),
        0 <= i < 64,
    ensures
        bit(expand_spec(bb), i) <==> sq_playable(i) && reaches(bb, i, 1),
{
    lemma_expand_bits(bb, i as u64);
    if bit(expand_spec(bb), i) {
        assert(sq_playable(i));
        lemma_expand_witness(bb, i);
    } else {
        if sq_playable(i) && reaches(bb, i, 1) {
            let j = choose|j: int| bit(bb, j) && chebyshev(j, i) <= 1;
            lemma_neighbour_offsets(bb, j, i);
            assert(false);
        }
    }
}

/// The word-level fact behind `lemma_expand_sem`, stated over explicit
/// neighbour offsets so the bit-vector solver can discharge it.
proof fn lemma_expand_bits(bb: u64, i: u64)
    by (bit_vector)
    requires
        bb & 0xFF80_8080_8080_8080u64 == 0,
        i < 64,
    ensures
        ({
            let vertical = ((bb << 8) & 0x007F_7F7F_7F7F_7F7Fu64) | ((bb >> 8)
                & 0x007F_7F7F_7F7F_7F7Fu64) | bb;
            let r = (vertical | ((vertical << 1) & 0x007F_7F7F_7F7F_7F7Fu64) | ((vertical >> 1)
                & 0x007F_7F7F_7F7F_7F7Fu64)) & 0x007F_7F7F_7F7F_7F7Fu64;
            ((r >> i) & 1u64 == 1u64) <==> (i % 8 < 7 && i / 8 < 7 && ((bb >> i) & 1u64 == 1u64
                || (i + 1 < 64 && (bb >> ((i + 1) as u64)) & 1u64 == 1u64)
                || (i + 7 < 64 && (bb >> ((i + 7) as u64)) & 1u64 == 1u64)
                || (i + 8 < 64 && (bb >> ((i + 8) as u64)) & 1u64 == 1u64)
                || (i + 9 < 64 && (bb >> ((i + 9) as u64)) & 1u64 == 1u64)
                || (i >= 1 && (bb >> ((i - 1) as u64)) & 1u64 == 1u64)
                || (i >= 7 && (bb >> ((i - 7) as u64)) & 1u64 == 1u64)
                || (i >= 8 && (bb >> ((i - 8) as u64)) & 1u64 == 1u64)
                || (i >= 9 && (bb >> ((i - 9) as u64)) & 1u64 == 1u64)))
        }),
{
}

/// From a set expansion bit, produce a witness cell at distance at most 1.
proof fn lemma_expand_witness(bb: u64, i: int)
    requires
        playable_only(bb),
        bit(expand_spec(bb), i),
        sq_playable(i),
    ensures
        reaches(bb, i, 1),
{
    lemma_expand_bits(bb, i as u64);
    lemma_playable_only_bits(bb);
    if bit(bb, i) {
        lemma_offset_cheb(i, i);
    } else if bit(bb, i + 1) {
        lemma_offset_cheb(i, i + 1);
    } else if bit(bb, i + 7) {
        lemma_offset_cheb(i, i + 7);
    } else if bit(bb, i + 8) {
        lemma_offset_cheb(i, i + 8);
    } else if bit(bb, i + 9) {
        lemma_offset_cheb(i, i + 9);
    } else if bit(bb, i - 1) {
        lemma_offset_cheb(i, i - 1);
    } else if bit(bb, i - 7) {
        lemma_offset_cheb(i, i - 7);
    } else if bit(bb, i - 8) {
        lemma_offset_cheb(i, i - 8);
    } else if bit(bb, i - 9) {
        lemma_offset_cheb(i, i - 9);
    } else {
        assert(false);
    }
}

/// A playable cell at one of the eight king offsets from playable cell `i`
/// (or `i` itself) lies within Chebyshev distance 1 of `i`.
proof fn lemma_offset_cheb(i: int, j: int)
    requires
        sq_playable(i),
        sq_playable(j),
        j == i || j == i + 1 || j == i + 7 || j == i + 8 || j == i + 9 || j == i - 1 || j == i - 7
            || j == i - 8 || j == i - 9,
    ensures
        chebyshev(j, i) <= 1,
{
    lemma_div_mod_offsets(i);
    lemma_div_mod_offsets(j);
    let dr = sq_rank(j) - sq_rank(i);
    let df = sq_file(j) - sq_file(i);
    assert(j - i == 8 * dr + df);
    assert(-7 < df < 7);
    assert(-1 <= dr <= 1 && -1 <= df <= 1);
}

/// A cell at Chebyshev distance at most 1 from playable cell `i`, itself a
/// set bit of a playable-only board, sits at one of the eight king offsets,
/// so the corresponding disjunct of `lemma_expand_bits` holds.
proof fn lemma_neighbour_offsets(bb: u64, j: int, i: int)
    requires
        playable_only(bb),
        bit(bb, j),
        sq_playable(i),
        chebyshev(j, i) <= 1,
    ensures
        j == i || j == i + 1 || j == i + 7 || j == i + 8 || j == i + 9 || j == i - 1 || j == i - 7
            || j == i - 8 || j == i - 9,
{
    lemma_playable_only_bits(bb);
    lemma_div_mod_offsets(i);
    lemma_div_mod_offsets(j);
    let dr = sq_rank(j) - sq_rank(i);
    let df = sq_file(j) - sq_file(i);
    assert(-1 <= dr <= 1 && -1 <= df <= 1);
    assert(j == 8 * sq_rank(j) + sq_file(j));
    assert(i == 8 * sq_rank(i) + sq_file(i));
    assert(j == i + 8 * dr + df);
}

/// Division and remainder by 8 reconstruct a square index.
proof fn lemma_div_mod_offsets(i: int)
    requires
        0 <= i < 64,
    ensures
        i == 8 * (i / 8) + i % 8,
        0 <= i % 8 < 8,
        0 <= i / 8 < 8,
{
}

/// Bitwise operations, read bit by bit.
pub proof fn lemma_bits_ops(a: u64, b: u64, i: int)
    requires
        0 <= i < 64,
    ensures
        bit(a | b, i) == (bit(a, i) || bit(b, i)),
        bit(a & b, i) == (bit(a, i) && bit(b, i)),
        bit(a ^ b, i) == (bit(a, i) != bit(b, i)),
        bit(!a, i) == !bit(a, i),
        !bit(0u64, i),
{
    let iu = i as u64;
    assert(iu < 64 ==> ((((a | b) >> iu) & 1u64 == 1u64) == (((a >> iu) & 1u64 == 1u64) || ((b
        >> iu) & 1u64 == 1u64))) && ((((a & b) >> iu) & 1u64 == 1u64) == (((a >> iu) & 1u64
        == 1u64) && ((b >> iu) & 1u64 == 1u64))) && ((((a ^ b) >> iu) & 1u64 == 1u64) == (((a
        >> iu) & 1u64 == 1u64) != ((b >> iu) & 1u64 == 1u64))) && ((((!a) >> iu) & 1u64 == 1u64)
        == !((a >> iu) & 1u64 == 1u64)) && !((0u64 >> iu) & 1u64 == 1u64)) by (bit_vector);
}

/// A one-bit bitboard: which bit it holds, and that a playable one stays
/// inside the playable region.
pub proof fn lemma_single_bit(s: u64, i: int)
    requires
        s < 64,
        0 <= i < 64,
    ensures
        bit(1u64 << s, i) == (i == s as int),
        s % 8 < 7 && s / 8 < 7 ==> playable_only(1u64 << s),
{
    let iu = i as u64;
    assert((s < 64 && iu < 64 ==> ((((1u64 << s) >> iu) & 1u64 == 1u64) == (iu == s))) && (s < 64
        && s % 8 < 7 && s / 8 < 7 ==> (1u64 << s) & 0xFF80_8080_8080_8080u64 == 0))
        by (bit_vector);
}

/// The playable mask and its complement, read bit by bit.
pub proof fn lemma_mask_bits(i: int)
    requires
        0 <= i < 64,
    ensures
        bit(BB_ALL, i) == sq_playable(i),
        bit(BB_EDGE, i) == !sq_playable(i),
{
    let iu = i as u64;
    assert(iu < 64 ==> (((0x007F_7F7F_7F7F_7F7Fu64 >> iu) & 1u64 == 1u64) == (iu % 8 < 7 && iu / 8
        < 7)) && (((0xFF80_8080_8080_8080u64 >> iu) & 1u64 == 1u64) == !(iu % 8 < 7 && iu / 8
        < 7))) by (bit_vector);
}

/// One-ring expansion never leaves the playable region.
pub proof fn lemma_expand_playable_only(bb: u64)
    ensures
        playable_only(expand_spec(bb)),
{
    assert(expand_spec(bb) & 0xFF80_8080_8080_8080u64 == 0) by (bit_vector);
}

/// The Chebyshev distance obeys the triangle inequality.
pub proof fn lemma_cheb_triangle(a: int, b: int, c: int)
    ensures
        chebyshev(a, c) <= chebyshev(a, b) + chebyshev(b, c),
{
}

/// What two-ring expansion means, cell by cell: a playable cell is in the
/// double expansion exactly when some set bit of the (playable-only) input
/// is at Chebyshev distance at most 2.  The inner ring is masked to the
/// playable region, but since that region is a rectangle, every distance-2
/// cell still has a playable stepping stone.
pub proof fn lemma_expand2_sem(bb: u64, i: int)
    requires
        playable_only(bb),
        0 <= i < 64,
    ensures
        bit(expand_spec(expand_spec(bb)), i) <==> sq_playable(i) && reaches(bb, i, 2),
{
    let e1 = expand_spec(bb);
    lemma_expand_playable_only(bb);
    lemma_expand_sem(e1, i);
    if bit(expand_spec(e1), i) {
        let k = choose|k: int| bit(e1, k) && chebyshev(k, i) <= 1;
        lemma_expand_sem(bb, k);
        let j = choose|j: int| bit(bb, j) && chebyshev(j, k) <= 1;
        lemma_cheb_triangle(j, k, i);
        assert(bit(bb, j) && chebyshev(j, i) <= 2);
    } else if sq_playable(i) && reaches(bb, i, 2) {
        let j = choose|j: int| bit(bb, j) && chebyshev(j, i) <= 2;
        lemma_playable_only_bits(bb);
        assert(sq_playable(j));
        let ir = sq_rank(i);
        let fi = sq_file(i);
        let jr = sq_rank(j);
        let jf = sq_file(j);
        let kr = if jr > ir + 1 {
            ir + 1
        } else if jr < ir - 1 {
            ir - 1
        } else {
            jr
        };
        let kf = if jf > fi + 1 {
            fi + 1
        } else if jf < fi - 1 {
            fi - 1
        } else {
            jf
        };
        let k = 8 * kr + kf;
        assert(0 <= kr < 7 && 0 <= kf < 7);
        assert(k / 8 == kr && k % 8 == kf);
        assert(sq_playable(k));
        assert(chebyshev(j, k) <= 1);
        assert(chebyshev(k, i) <= 1);
        lemma_expand_sem(bb, k);
        assert(bit(e1, k));
        assert(reaches(e1, i, 1));
        assert(false);
    }
}

/// The number of set bits among the lowest `n` bits of a bitboard.
pub open spec fn popcount_to(bb: u64, n: int) -> nat
    decreases n,
{
    if n <= 0 {
        0
    } else {
        popcount_to(bb, n - 1) + if bit(bb, n - 1) {
            1nat
        } else {
            0nat
        }
    }
}

/// The number of set bits of a bitboard.
pub open spec fn count_bits(bb: u64) -> nat {
    popcount_to(bb, 64)
}

/// Count the set bits of a bitboard.
pub fn popcount(bb: u64) -> (r: u32)
    ensures
        r == count_bits(bb),
{
    let mut count: u32 = 0;
    let mut i: u64 = 0;
    while i < 64
        invariant
            0 <= i <= 64,
            count == popcount_to(bb, i as int),
            count <= i,
        decreases 64 - i,
    {
        if (bb >> i) & 1u64 == 1u64 {
            count = count + 1;
        }
        i = i + 1;
    }
    count
}

/// Counting the low bits never exceeds their number.
pub proof fn lemma_popcount_bound(bb: u64, n: int)
    requires
        0 <= n,
    ensures
        popcount_to(bb, n) <= n,
    decreases n,
{
    if n > 0 {
        lemma_popcount_bound(bb, n - 1);
    }
}

/// The position of the `k`-th set bit of a bitboard, counting from zero
/// upward.
pub fn nth_set_bit(w: u64, k: u32) -> (idx: u64)
    requires
        (k as nat) < count_bits(w),
    ensures
        idx < 64,
        bit(w, idx as int),
        popcount_to(w, idx as int) == k,
{
    let mut c: u32 = k;
    let mut i: u64 = 0;
    while i < 64
        invariant
            i <= 64,
            popcount_to(w, i as int) <= k,
            c == k - popcount_to(w, i as int),
            (k as nat) < count_bits(w),
        decreases 64 - i,
    {
        if (w >> i) & 1u64 == 1u64 {
            if c == 0 {
                return i;
            }
            c = c - 1;
        }
        i = i + 1;
    }
    proof {
        assert(false);
    }
    0
}

/// A bitboard with no set bits counts zero.
pub proof fn lemma_popcount_zero(bb: u64, n: int)
    requires
        forall|i: int| 0 <= i < n ==> !bit(bb, i),
    ensures
        popcount_to(bb, n) == 0,
    decreases n,
{
    if n > 0 {
        lemma_popcount_zero(bb, n - 1);
    }
}

/// A bitboard with a set bit counts at least one.
pub proof fn lemma_popcount_pos(bb: u64, j: int, n: int)
    requires
        bit(bb, j),
        j < n,
    ensures
        popcount_to(bb, n) >= 1,
    decreases n,
{
    if j < n - 1 {
        lemma_popcount_pos(bb, j, n - 1);
    }
}

/// A square index splits into its rank and file.
pub proof fn lemma_div_mod_cell(i: int)
    requires
        0 <= i < 64,
    ensures
        i == 8 * sq_rank(i) + sq_file(i),
        0 <= sq_file(i) < 8,
        0 <= sq_rank(i) < 8,
{
}

/// Two bitboards with the same bits are the same word.
pub proof fn lemma_word_eq(a: u64, b: u64)
    requires
        forall|i: int| 0 <= i < 64 ==> #[trigger] bit(a, i) == bit(b, i),
    ensures
        a == b,
{
    assert forall|i: int| !bit(a ^ b, i) by {
        if 0 <= i < 64 {
            lemma_bits_ops(a, b, i);
        }
    }
    lemma_zero_intro(a ^ b);
    assert(a ^ b == 0 ==> a == b) by (bit_vector);
}

/// Reaching a one-bit bitboard is reaching its square.
pub proof fn lemma_reaches_single(s: u64, i: int, d: int)
    requires
        s < 64,
    ensures
        reaches(1u64 << s, i, d) <==> chebyshev(s as int, i) <= d,
{
    if reaches(1u64 << s, i, d) {
        let j = choose|j: int| bit(1u64 << s, j) && chebyshev(j, i) <= d;
        lemma_single_bit(s, j);
    }
    if chebyshev(s as int, i) <= d {
        lemma_single_bit(s, s as int);
        assert(bit(1u64 << s, s as int) && chebyshev(s as int, i) <= d);
    }
}

/// A set bit of a nonzero bitboard, by way of its trailing zeros.
pub proof fn nonzero_witness(bb: u64) -> (t: int)
    requires
        bb != 0,
    ensures
        0 <= t < 64,
        bit(bb, t),
{
    vstd::std_specs::bits::axiom_u64_trailing_zeros(bb);
    vstd::std_specs::bits::u64_trailing_zeros(bb) as int
}

/// A bitboard with a set bit is nonzero.
pub proof fn lemma_nonzero_intro(bb: u64, i: int)
    requires
        bit(bb, i),
    ensures
        bb != 0,
{
    if bb == 0 {
        lemma_bits_ops(bb, bb, i);
    }
}

/// A bitboard with no set bits is zero.
pub proof fn lemma_zero_intro(bb: u64)
    requires
        forall|i: int| !bit(bb, i),
    ensures
        bb == 0,
{
    if bb != 0 {
        let t = nonzero_witness(bb);
    }
}

/// A bitboard whose set bits are all playable cells is playable-only.
pub proof fn lemma_playable_only_intro(bb: u64)
    requires
        forall|i: int| bit(bb, i) ==> sq_playable(i),
    ensures
        playable_only(bb),
{
    if bb & BB_EDGE != 0 {
        let t = nonzero_witness(bb & BB_EDGE);
        lemma_bits_ops(bb, BB_EDGE, t);
        lemma_mask_bits(t);
        assert(false);
    }
}

/// In a playable-only board every set bit is a playable cell.
pub proof fn lemma_playable_only_bits(bb: u64)
    requires
        playable_only(bb),
    ensures
        forall|j: int| bit(bb, j) ==> sq_playable(j),
{
    assert forall|j: int| bit(bb, j) implies sq_playable(j) by {
        let ju = j as u64;
        assert(ju < 64 && (bb >> ju) & 1u64 == 1u64 && bb & 0xFF80_8080_8080_8080u64 == 0
            ==> ju % 8 < 7 && ju / 8 < 7) by (bit_vector);
    }
}

} // verus!
