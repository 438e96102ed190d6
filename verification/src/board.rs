//! The board value: pawn occupancy as a 64-bit mask plus the mover's
//! coordinates, with move generation by ray scan and move application.

use vstd::prelude::*;

use crate::bits::{
    in_range, lemma_clear_bit, lemma_count_clear, lemma_set_bit, lemma_sq_injective, mask,
    pawn_count, sq, sq_occupied,
};
use vstd::string::StrSliceExecFns;
use vstd::string::StringExecFns;

verus! {

/// One board state: the pawns still standing and where the mover sits.
#[derive(Clone, Copy)]
pub struct Board {
    /// Bitmask of pawn positions, row-major, bit `8 * row + col`.
    pub board: u64,
    /// Mover (queen) column.
    pub q_col: u8,
    /// Mover (queen) row.
    pub q_row: u8,
}

/// A board state the solver works on: the mover is on the board and its own
/// square holds no pawn.
pub open spec fn board_wf(b: Board) -> bool {
    &&& b.q_row < 8
    &&& b.q_col < 8
    &&& !sq_occupied(b.board, b.q_row as int, b.q_col as int)
}

/// The board after the mover relocates to (row, col), taking the pawn there.
pub open spec fn apply_move(b: Board, row: u8, col: u8) -> Board {
    Board { board: b.board & !mask(row as int, col as int), q_col: col, q_row: row }
}

impl Board {
    /// Get the bit mask for a board position.
    pub fn pos_bit(row: u8, col: u8) -> (r: u64)
        requires
            row < 8,
            col < 8,
        ensures
            r == mask(row as int, col as int),
    {
        1u64 << (col + row * 8)
    }

    /// Tests whether a board position contains a pawn.
    pub fn occupied(&self, row: u8, col: u8) -> (r: bool)
        requires
            row < 8,
            col < 8,
        ensures
            r == sq_occupied(self.board, row as int, col as int),
    {
        (self.board & Self::pos_bit(row, col)) != 0
    }

    /// Moves the queen to a new position and removes the pawn there.
    pub fn move_to(&mut self, row: u8, col: u8)
        requires
            row < 8,
            col < 8,
            sq_occupied(old(self).board, row as int, col as int),
        ensures
            *final(self) == apply_move(*old(self), row, col),
            final(self).q_row == row,
            final(self).q_col == col,
            forall|r: int, c: int|
                in_range(r, c) ==> (sq_occupied(final(self).board, r, c) <==> (sq_occupied(
                    old(self).board,
                    r,
                    c,
                ) && !(r == row && c == col))),
            !sq_occupied(final(self).board, row as int, col as int),
            pawn_count(final(self).board) + 1 == pawn_count(old(self).board),
            board_wf(*final(self)),
    {
        let ghost prev = self.board;
        self.q_col = col;
        self.q_row = row;
        self.board &= !Self::pos_bit(row, col);
        proof {
            lemma_apply_move(prev, row, col);
        }
    }
}

/// A unit step along one of the eight rays (four orthogonal, four diagonal).
pub open spec fn valid_dir(dr: int, dc: int) -> bool {
    &&& -1 <= dr <= 1
    &&& -1 <= dc <= 1
    &&& !(dr == 0 && dc == 0)
}

/// Scan outward from (row, col) along the ray (dr, dc): the first occupied
/// square reached before leaving the board, if any.  `fuel` bounds the number
/// of steps; eight steps always suffice on an 8x8 board.
pub open spec fn ray_scan(bits: u64, row: int, col: int, dr: int, dc: int, fuel: nat) -> Option<
    (u8, u8),
>
    decreases fuel,
{
    if fuel == 0 {
        None
    } else if !in_range(row + dr, col + dc) {
        None
    } else if sq_occupied(bits, row + dr, col + dc) {
        Some(((row + dr) as u8, (col + dc) as u8))
    } else {
        ray_scan(bits, row + dr, col + dc, dr, dc, (fuel - 1) as nat)
    }
}

/// The unique candidate move in direction (dr, dc), if that ray holds a pawn.
pub open spec fn dir_move(b: Board, dr: int, dc: int) -> Option<(u8, u8)> {
    ray_scan(b.board, b.q_row as int, b.q_col as int, dr, dc, 8)
}

pub open spec fn opt_moves(o: Option<(u8, u8)>) -> Seq<(u8, u8)> {
    match o {
        Some(m) => seq![m],
        None => Seq::empty(),
    }
}

/// All candidate moves, in the fixed direction order west, east, north,
/// south, north-east, south-east, south-west, north-west.
pub open spec fn next_moves_spec(b: Board) -> Seq<(u8, u8)> {
    opt_moves(dir_move(b, 0, -1)) + opt_moves(dir_move(b, 0, 1)) + opt_moves(dir_move(b, -1, 0))
        + opt_moves(dir_move(b, 1, 0)) + opt_moves(dir_move(b, -1, 1)) + opt_moves(
        dir_move(b, 1, 1),
    ) + opt_moves(dir_move(b, 1, -1)) + opt_moves(dir_move(b, -1, -1))
}

/// How many in-board steps remain from (row, col) along ray (dr, dc) before
/// the scan must run off the board.
pub open spec fn steps_to_edge(row: int, col: int, dr: int, dc: int) -> int {
    let row_steps = if dr == 1 {
        7 - row
    } else if dr == -1 {
        row
    } else {
        7
    };
    let col_steps = if dc == 1 {
        7 - col
    } else if dc == -1 {
        col
    } else {
        7
    };
    if row_steps <= col_steps {
        row_steps
    } else {
        col_steps
    }
}

impl Board {
    /// The candidate move along one ray: the nearest pawn in that direction.
    fn ray_probe(&self, dr: i16, dc: i16) -> (m: Option<(u8, u8)>)
        requires
            board_wf(*self),
            valid_dir(dr as int, dc as int),
        ensures
            m == dir_move(*self, dr as int, dc as int),
    {
        let mut r: i16 = self.q_row as i16;
        let mut c: i16 = self.q_col as i16;
        let ghost mut k: int = 0;
        loop
            invariant
                board_wf(*self),
                valid_dir(dr as int, dc as int),
                0 <= r < 8,
                0 <= c < 8,
                0 <= k <= 7,
                8 - k > steps_to_edge(r as int, c as int, dr as int, dc as int),
                dir_move(*self, dr as int, dc as int) == ray_scan(
                    self.board,
                    r as int,
                    c as int,
                    dr as int,
                    dc as int,
                    (8 - k) as nat,
                ),
            decreases 8 - k,
        {
            let nr = r + dr;
            let nc = c + dc;
            if nr < 0 || nr > 7 || nc < 0 || nc > 7 {
                return None;
            }
            if self.occupied(nr as u8, nc as u8) {
                return Some((nr as u8, nc as u8));
            }
            r = nr;
            c = nc;
            proof {
                k = k + 1;
            }
        }
    }

    /// Calculate all next valid moves for the queen: at most one capture per
    /// ray, scanning the eight directions in a fixed order.
    #[verifier::rlimit(100)]
    pub fn next_moves(&self) -> (moves: Vec<(u8, u8)>)
        requires
            board_wf(*self),
        ensures
            moves@ == next_moves_spec(*self),
    {
        let b = *self;
        let mut moves: Vec<(u8, u8)> = Vec::new();

        // West
        if let Some(m) = self.ray_probe(0, -1) {
            moves.push(m);
        }
        let ghost s1 = opt_moves(dir_move(b, 0, -1));
        proof {
            assert(moves@ =~= s1);
        }
        // East
        if let Some(m) = self.ray_probe(0, 1) {
            moves.push(m);
        }
        let ghost s2 = s1 + opt_moves(dir_move(b, 0, 1));
        proof {
            assert(moves@ =~= s2);
        }
        // North
        if let Some(m) = self.ray_probe(-1, 0) {
            moves.push(m);
        }
        let ghost s3 = s2 + opt_moves(dir_move(b, -1, 0));
        proof {
            assert(moves@ =~= s3);
        }
        // South
        if let Some(m) = self.ray_probe(1, 0) {
            moves.push(m);
        }
        let ghost s4 = s3 + opt_moves(dir_move(b, 1, 0));
        proof {
            assert(moves@ =~= s4);
        }
        // North-east
        if let Some(m) = self.ray_probe(-1, 1) {
            moves.push(m);
        }
        let ghost s5 = s4 + opt_moves(dir_move(b, -1, 1));
        proof {
            assert(moves@ =~= s5);
        }
        // South-east
        if let Some(m) = self.ray_probe(1, 1) {
            moves.push(m);
        }
        let ghost s6 = s5 + opt_moves(dir_move(b, 1, 1));
        proof {
            assert(moves@ =~= s6);
        }
        // South-west
        if let Some(m) = self.ray_probe(1, -1) {
            moves.push(m);
        }
        let ghost s7 = s6 + opt_moves(dir_move(b, 1, -1));
        proof {
            assert(moves@ =~= s7);
        }
        // North-west
        if let Some(m) = self.ray_probe(-1, -1) {
            moves.push(m);
        }
        proof {
            assert(moves@ =~= s7 + opt_moves(dir_move(b, -1, -1)));
            assert(moves@ =~= next_moves_spec(b));
        }
        moves
    }
}

/// Square k steps out from the mover along ray (dr, dc) is the nearest
/// occupied square on that ray: it is on the board, it holds a pawn, and
/// every square strictly between the mover and it is on the board and free.
pub open spec fn nearest_on_ray(b: Board, dr: int, dc: int, k: int) -> bool {
    nearest_from(b.board, b.q_row as int, b.q_col as int, dr, dc, k)
}

/// The first n squares out from (row, col) along ray (dr, dc) are all on the
/// board and all free of pawns.
pub open spec fn ray_free_upto(bits: u64, row: int, col: int, dr: int, dc: int, n: int) -> bool
    decreases n,
{
    n <= 0 || {
        &&& in_range(row + dr, col + dc)
        &&& !sq_occupied(bits, row + dr, col + dc)
        &&& ray_free_upto(bits, row + dr, col + dc, dr, dc, n - 1)
    }
}

/// Square k steps out from (row, col) along ray (dr, dc) is the first
/// occupied square a scan meets: on the board and occupied, with every
/// strictly earlier step on the board and free.
pub open spec fn nearest_from(bits: u64, row: int, col: int, dr: int, dc: int, k: int) -> bool {
    &&& 1 <= k
    &&& in_range(row + k * dr, col + k * dc)
    &&& sq_occupied(bits, row + k * dr, col + k * dc)
    &&& ray_free_upto(bits, row, col, dr, dc, k - 1)
}

/// Every square of the ray from (row, col) in direction (dr, dc) that lies on
/// the board is free: the ray yields no move.
pub open spec fn ray_free(bits: u64, row: int, col: int, dr: int, dc: int) -> bool {
    ray_free_upto(bits, row, col, dr, dc, steps_to_edge(row, col, dr, dc))
}

/// Pointwise reading of `ray_free_upto`: each of the first n steps is on the
/// board and free.
pub proof fn lemma_ray_free_upto_at(bits: u64, row: int, col: int, dr: int, dc: int, n: int, j: int)
    requires
        ray_free_upto(bits, row, col, dr, dc, n),
        1 <= j <= n,
    ensures
        in_range(row + j * dr, col + j * dc),
        !sq_occupied(bits, row + j * dr, col + j * dc),
    decreases j,
{
    assert(row + 1 * dr == row + dr && col + 1 * dc == col + dc) by (nonlinear_arith);
    if j > 1 {
        lemma_ray_free_upto_at(bits, row + dr, col + dc, dr, dc, n - 1, j - 1);
        assert(row + dr + (j - 1) * dr == row + j * dr && col + dc + (j - 1) * dc == col + j * dc)
            by (nonlinear_arith);
    }
}

/// A step that stays on the board is within `steps_to_edge` many steps.
proof fn lemma_steps_to_edge_bound(row: int, col: int, dr: int, dc: int, k: int)
    requires
        valid_dir(dr, dc),
        in_range(row, col),
        in_range(row + k * dr, col + k * dc),
        k >= 1,
    ensures
        k <= steps_to_edge(row, col, dr, dc),
{
    if dr == 1 {
        assert(k * dr == k) by (nonlinear_arith)
            requires
                dr == 1,
        ;
    } else if dr == -1 {
        assert(k * dr == -k) by (nonlinear_arith)
            requires
                dr == -1,
        ;
    } else {
        assert(k * dr == 0) by (nonlinear_arith)
            requires
                dr == 0,
        ;
    }
    if dc == 1 {
        assert(k * dc == k) by (nonlinear_arith)
            requires
                dc == 1,
        ;
    } else if dc == -1 {
        assert(k * dc == -k) by (nonlinear_arith)
            requires
                dc == -1,
        ;
    } else {
        assert(k * dc == 0) by (nonlinear_arith)
            requires
                dc == 0,
        ;
    }
}

/// Pointwise reading of `ray_free`: no on-board square of the ray holds a
/// pawn.
pub proof fn lemma_ray_free_at(bits: u64, row: int, col: int, dr: int, dc: int, k: int)
    requires
        valid_dir(dr, dc),
        in_range(row, col),
        ray_free(bits, row, col, dr, dc),
        k >= 1,
        in_range(row + k * dr, col + k * dc),
    ensures
        !sq_occupied(bits, row + k * dr, col + k * dc),
{
    lemma_steps_to_edge_bound(row, col, dr, dc, k);
    lemma_ray_free_upto_at(bits, row, col, dr, dc, steps_to_edge(row, col, dr, dc), k);
}

proof fn lemma_ray_scan_nearest(bits: u64, row: int, col: int, dr: int, dc: int, fuel: nat)
    requires
        in_range(row, col),
        valid_dir(dr, dc),
        fuel > steps_to_edge(row, col, dr, dc),
    ensures
        match ray_scan(bits, row, col, dr, dc, fuel) {
            Some(m) => exists|k: int|
                #[trigger] nearest_from(bits, row, col, dr, dc, k) && m.0 == row + k * dr && m.1
                    == col + k * dc,
            None => ray_free(bits, row, col, dr, dc),
        },
    decreases fuel,
{
    let r1 = row + dr;
    let c1 = col + dc;
    assert(row + 1 * dr == row + dr && col + 1 * dc == col + dc) by (nonlinear_arith);
    if !in_range(r1, c1) {
        assert(steps_to_edge(row, col, dr, dc) == 0);
    } else if sq_occupied(bits, r1, c1) {
        assert(nearest_from(bits, row, col, dr, dc, 1));
    } else {
        lemma_steps_to_edge_dec(row, col, dr, dc);
        lemma_ray_scan_nearest(bits, r1, c1, dr, dc, (fuel - 1) as nat);
        match ray_scan(bits, r1, c1, dr, dc, (fuel - 1) as nat) {
            Some(m) => {
                let k0 = choose|k: int|
                    #[trigger] nearest_from(bits, r1, c1, dr, dc, k) && m.0 == r1 + k * dr && m.1
                        == c1 + k * dc;
                let k1 = k0 + 1;
                assert(r1 + k0 * dr == row + k1 * dr && c1 + k0 * dc == col + k1 * dc)
                    by (nonlinear_arith)
                    requires
                        r1 == row + dr && c1 == col + dc && k1 == k0 + 1,
                ;
                assert(nearest_from(bits, row, col, dr, dc, k1) && m.0 == row + k1 * dr && m.1
                    == col + k1 * dc);
            },
            None => {
                assert(ray_free_upto(bits, r1, c1, dr, dc, steps_to_edge(row, col, dr, dc) - 1));
                assert(ray_free(bits, row, col, dr, dc));
            },
        }
    }
}

/// Stepping once along a ray lowers the number of in-board steps left by one.
proof fn lemma_steps_to_edge_dec(row: int, col: int, dr: int, dc: int)
    requires
        valid_dir(dr, dc),
        in_range(row, col),
        in_range(row + dr, col + dc),
    ensures
        steps_to_edge(row + dr, col + dc, dr, dc) == steps_to_edge(row, col, dr, dc) - 1,
{
}

/// Law: in every direction the generator offers at most one candidate —
/// `dir_move` is an `Option` — and when it offers one, that square is the
/// nearest occupied square strictly along the ray; when it offers none, the
/// whole ray is free of pawns.
pub proof fn lemma_dir_move_nearest(b: Board, dr: int, dc: int)
    requires
        board_wf(b),
        valid_dir(dr, dc),
    ensures
        match dir_move(b, dr, dc) {
            Some(m) => exists|k: int|
                #[trigger] nearest_on_ray(b, dr, dc, k) && m.0 == b.q_row + k * dr && m.1
                    == b.q_col + k * dc,
            None => ray_free(b.board, b.q_row as int, b.q_col as int, dr, dc),
        },
{
    lemma_ray_scan_nearest(b.board, b.q_row as int, b.q_col as int, dr, dc, 8);
    if let Some(m) = dir_move(b, dr, dc) {
        let k = choose|k: int|
            #[trigger] nearest_from(b.board, b.q_row as int, b.q_col as int, dr, dc, k) && m.0
                == b.q_row + k * dr && m.1 == b.q_col + k * dc;
        assert(nearest_on_ray(b, dr, dc, k));
    }
}

/// Every square a scan returns is on the board and holds a pawn.
proof fn lemma_ray_scan_occ(bits: u64, row: int, col: int, dr: int, dc: int, fuel: nat)
    ensures
        match ray_scan(bits, row, col, dr, dc, fuel) {
            Some(m) => in_range(m.0 as int, m.1 as int) && sq_occupied(
                bits,
                m.0 as int,
                m.1 as int,
            ),
            None => true,
        },
    decreases fuel,
{
    if fuel > 0 && in_range(row + dr, col + dc) && !sq_occupied(bits, row + dr, col + dc) {
        lemma_ray_scan_occ(bits, row + dr, col + dc, dr, dc, (fuel - 1) as nat);
    }
}

/// Every generated move lands on the board, on a pawn, and therefore never
/// on the mover's own square; and there are at most eight of them.
pub proof fn lemma_next_moves_valid(b: Board)
    requires
        board_wf(b),
    ensures
        next_moves_spec(b).len() <= 8,
        moves_valid(b.board, next_moves_spec(b)),
{
    let segs = seq![
        dir_move(b, 0, -1),
        dir_move(b, 0, 1),
        dir_move(b, -1, 0),
        dir_move(b, 1, 0),
        dir_move(b, -1, 1),
        dir_move(b, 1, 1),
        dir_move(b, 1, -1),
        dir_move(b, -1, -1),
    ];
    assert forall|i: int| 0 <= i < segs.len() implies moves_valid(b.board, opt_moves(segs[i])) by {
        let o = segs[i];
        if i == 0 {
            lemma_ray_scan_occ(b.board, b.q_row as int, b.q_col as int, 0, -1, 8);
        } else if i == 1 {
            lemma_ray_scan_occ(b.board, b.q_row as int, b.q_col as int, 0, 1, 8);
        } else if i == 2 {
            lemma_ray_scan_occ(b.board, b.q_row as int, b.q_col as int, -1, 0, 8);
        } else if i == 3 {
            lemma_ray_scan_occ(b.board, b.q_row as int, b.q_col as int, 1, 0, 8);
        } else if i == 4 {
            lemma_ray_scan_occ(b.board, b.q_row as int, b.q_col as int, -1, 1, 8);
        } else if i == 5 {
            lemma_ray_scan_occ(b.board, b.q_row as int, b.q_col as int, 1, 1, 8);
        } else if i == 6 {
            lemma_ray_scan_occ(b.board, b.q_row as int, b.q_col as int, 1, -1, 8);
        } else {
            lemma_ray_scan_occ(b.board, b.q_row as int, b.q_col as int, -1, -1, 8);
        }
    }
    let s01 = opt_moves(segs[0]) + opt_moves(segs[1]);
    lemma_moves_valid_concat(b.board, opt_moves(segs[0]), opt_moves(segs[1]));
    let s02 = s01 + opt_moves(segs[2]);
    lemma_moves_valid_concat(b.board, s01, opt_moves(segs[2]));
    let s03 = s02 + opt_moves(segs[3]);
    lemma_moves_valid_concat(b.board, s02, opt_moves(segs[3]));
    let s04 = s03 + opt_moves(segs[4]);
    lemma_moves_valid_concat(b.board, s03, opt_moves(segs[4]));
    let s05 = s04 + opt_moves(segs[5]);
    lemma_moves_valid_concat(b.board, s04, opt_moves(segs[5]));
    let s06 = s05 + opt_moves(segs[6]);
    lemma_moves_valid_concat(b.board, s05, opt_moves(segs[6]));
    let s07 = s06 + opt_moves(segs[7]);
    lemma_moves_valid_concat(b.board, s06, opt_moves(segs[7]));
    assert(next_moves_spec(b) == s07);
}

/// Every move of the sequence lands on the board, on a pawn.
pub open spec fn moves_valid(bits: u64, ms: Seq<(u8, u8)>) -> bool {
    forall|i: int|
        0 <= i < ms.len() ==> {
            let m = #[trigger] ms[i];
            &&& in_range(m.0 as int, m.1 as int)
            &&& sq_occupied(bits, m.0 as int, m.1 as int)
        }
}

proof fn lemma_moves_valid_concat(bits: u64, s1: Seq<(u8, u8)>, s2: Seq<(u8, u8)>)
    requires
        moves_valid(bits, s1),
        moves_valid(bits, s2),
    ensures
        moves_valid(bits, s1 + s2),
{
    assert forall|i: int| 0 <= i < (s1 + s2).len() implies {
        let m = #[trigger] (s1 + s2)[i];
        &&& in_range(m.0 as int, m.1 as int)
        &&& sq_occupied(bits, m.0 as int, m.1 as int)
    } by {
        if i < s1.len() {
            assert((s1 + s2)[i] == s1[i]);
        } else {
            assert((s1 + s2)[i] == s2[i - s1.len()]);
        }
    }
}

/// What clearing the target square's bit does to occupancy and pawn count.
pub proof fn lemma_apply_move(bits: u64, row: u8, col: u8)
    requires
        row < 8,
        col < 8,
        sq_occupied(bits, row as int, col as int),
    ensures
        forall|r: int, c: int|
            in_range(r, c) ==> (sq_occupied(bits & !mask(row as int, col as int), r, c) <==> (
            sq_occupied(bits, r, c) && !(r == row && c == col))),
        !sq_occupied(bits & !mask(row as int, col as int), row as int, col as int),
        pawn_count(bits & !mask(row as int, col as int)) + 1 == pawn_count(bits),
{
    let j = sq(row as int, col as int) as u64;
    assert forall|r: int, c: int| in_range(r, c) implies (sq_occupied(
        bits & !mask(row as int, col as int),
        r,
        c,
    ) <==> (sq_occupied(bits, r, c) && !(r == row && c == col))) by {
        let i = sq(r, c) as u64;
        lemma_clear_bit(bits, j, i);
        if sq(r, c) == sq(row as int, col as int) {
            lemma_sq_injective(r, c, row as int, col as int);
        }
    }
    lemma_clear_bit(bits, j, j);
    lemma_count_clear(bits, j);
}


/// The characters of one layout row.
pub open spec fn row_view(l: [&str; 8], r: int) -> Seq<char> {
    l@[r]@
}

/// The layout character at (row, col).
pub open spec fn layout_char(l: [&str; 8], row: int, col: int) -> char {
    row_view(l, row)[col]
}

/// A well-formed starting layout: eight rows of eight characters, with a
/// mover marker 'Q' somewhere.
pub open spec fn layout_ok(l: [&str; 8]) -> bool {
    &&& forall|r: int| 0 <= r < 8 ==> (#[trigger] row_view(l, r)).len() == 8
    &&& exists|r: int, c: int| 0 <= r < 8 && 0 <= c < 8 && #[trigger] layout_char(l, r, c) == 'Q'
}

/// First column at or after c of row r that holds 'Q', or 8 if none does.
pub open spec fn first_queen_in_row(l: [&str; 8], r: int, c: int) -> int
    decreases 8 - c,
{
    if c < 0 || c >= 8 {
        8
    } else if layout_char(l, r, c) == 'Q' {
        c
    } else {
        first_queen_in_row(l, r, c + 1)
    }
}

/// First row at or after r that holds a 'Q', or 8 if none does.
pub open spec fn first_queen_row_from(l: [&str; 8], r: int) -> int
    decreases 8 - r,
{
    if r < 0 || r >= 8 {
        8
    } else if first_queen_in_row(l, r, 0) < 8 {
        r
    } else {
        first_queen_row_from(l, r + 1)
    }
}

proof fn lemma_first_queen_in_row_le(l: [&str; 8], r: int, s: int, c: int)
    requires
        0 <= s <= c < 8,
        layout_char(l, r, c) == 'Q',
    ensures
        first_queen_in_row(l, r, s) <= c,
    decreases c - s,
{
    if s < c && layout_char(l, r, s) != 'Q' {
        lemma_first_queen_in_row_le(l, r, s + 1, c);
    }
}

proof fn lemma_first_queen_row_le(l: [&str; 8], s: int, r: int)
    requires
        0 <= s <= r < 8,
        first_queen_in_row(l, r, 0) < 8,
    ensures
        first_queen_row_from(l, s) <= r,
    decreases r - s,
{
    if s < r && first_queen_in_row(l, s, 0) >= 8 {
        lemma_first_queen_row_le(l, s + 1, r);
    }
}

/// What raising the bit of square (row, col) does to occupancy.
proof fn lemma_mark_square(bits: u64, row: u8, col: u8)
    requires
        row < 8,
        col < 8,
    ensures
        forall|r: int, c: int|
            in_range(r, c) ==> (sq_occupied(bits | mask(row as int, col as int), r, c) <==> (
            sq_occupied(bits, r, c) || (r == row && c == col))),
{
    let j = sq(row as int, col as int) as u64;
    assert forall|r: int, c: int| in_range(r, c) implies (sq_occupied(
        bits | mask(row as int, col as int),
        r,
        c,
    ) <==> (sq_occupied(bits, r, c) || (r == row && c == col))) by {
        let i = sq(r, c) as u64;
        lemma_set_bit(bits, j, i);
        if sq(r, c) == sq(row as int, col as int) {
            lemma_sq_injective(r, c, row as int, col as int);
        }
    }
}

/// The mover glyph, pawn glyph or blank glyph shown for square (row, col).
pub open spec fn render_square(b: Board, row: int, col: int) -> char {
    if row == b.q_row && col == b.q_col {
        '\u{265b}'
    } else if sq_occupied(b.board, row, col) {
        '\u{265f}'
    } else {
        '\u{b7}'
    }
}

/// The eight glyphs of one displayed row.
pub open spec fn render_row(b: Board, row: int) -> Seq<char> {
    Seq::new(8, |col: int| render_square(b, row, col))
}

impl Board {
    /// Convert a string-array layout to a board: a pawn bit for every 'P',
    /// the mover at the first 'Q' in row-major order.
    pub fn new(str_board: &[&str; 8]) -> (b: Board)
        requires
            layout_ok(*str_board),
        ensures
            b.q_row as int == first_queen_row_from(*str_board, 0),
            b.q_col as int == first_queen_in_row(*str_board, b.q_row as int, 0),
            layout_char(*str_board, b.q_row as int, b.q_col as int) == 'Q',
            forall|r: int, c: int|
                in_range(r, c) ==> (sq_occupied(b.board, r, c) <==> layout_char(*str_board, r, c)
                    == 'P'),
            board_wf(b),
    {
        let ghost l = *str_board;

        // Convert the layout to board bits
        let mut bits: u64 = 0;
        proof {
            assert forall|rr: int, cc: int| in_range(rr, cc) implies !sq_occupied(
                0u64,
                rr,
                cc,
            ) by {
                let m = mask(rr, cc);
                assert(0u64 & m == 0) by (bit_vector);
            }
        }
        let mut r: usize = 0;
        while r < 8
            invariant
                layout_ok(l),
                l == *str_board,
                r <= 8,
                forall|rr: int, cc: int|
                    in_range(rr, cc) ==> (sq_occupied(bits, rr, cc) <==> (rr < r && layout_char(
                        l,
                        rr,
                        cc,
                    ) == 'P')),
            decreases 8 - r,
        {
            let row_str: &str = str_board[r];
            let mut c: usize = 0;
            while c < 8
                invariant
                    layout_ok(l),
                    l == *str_board,
                    r < 8,
                    c <= 8,
                    row_str@ == row_view(l, r as int),
                    forall|rr: int, cc: int|
                        in_range(rr, cc) ==> (sq_occupied(bits, rr, cc) <==> ((rr < r || (rr == r
                            && cc < c)) && layout_char(l, rr, cc) == 'P')),
                decreases 8 - c,
            {
                proof {
                    assert(row_view(l, r as int).len() == 8);
                }
                let ch = row_str.get_char(c);
                if ch == 'P' {
                    let ghost prev = bits;
                    bits = bits | Self::pos_bit(r as u8, c as u8);
                    proof {
                        lemma_mark_square(prev, r as u8, c as u8);
                    }
                }
                c += 1;
            }
            r += 1;
        }

        // Find the queen: first 'Q' in row-major order
        let mut q_row: usize = 0;
        let mut q_col: usize = 0;
        let mut found = false;
        let mut fr: usize = 0;
        while fr < 8 && !found
            invariant
                layout_ok(l),
                l == *str_board,
                fr <= 8,
                !found ==> first_queen_row_from(l, 0) == first_queen_row_from(l, fr as int),
                found ==> {
                    &&& q_row < 8
                    &&& q_col < 8
                    &&& q_row as int == first_queen_row_from(l, 0)
                    &&& q_col as int == first_queen_in_row(l, q_row as int, 0)
                    &&& layout_char(l, q_row as int, q_col as int) == 'Q'
                },
            decreases 8 - fr, if found { 0int } else { 1int },
        {
            let row_str: &str = str_board[fr];
            let mut c: usize = 0;
            while c < 8 && !found
                invariant
                    layout_ok(l),
                    l == *str_board,
                    fr < 8,
                    c <= 8,
                    row_str@ == row_view(l, fr as int),
                    !found ==> first_queen_row_from(l, 0) == first_queen_row_from(l, fr as int),
                    !found ==> first_queen_in_row(l, fr as int, 0) == first_queen_in_row(
                        l,
                        fr as int,
                        c as int,
                    ),
                    found ==> {
                        &&& q_row < 8
                        &&& q_col < 8
                        &&& q_row as int == first_queen_row_from(l, 0)
                        &&& q_col as int == first_queen_in_row(l, q_row as int, 0)
                        &&& layout_char(l, q_row as int, q_col as int) == 'Q'
                    },
                decreases 8 - c, if found { 0int } else { 1int },
            {
                proof {
                    assert(row_view(l, fr as int).len() == 8);
                }
                let ch = row_str.get_char(c);
                if ch == 'Q' {
                    q_row = fr;
                    q_col = c;
                    found = true;
                } else {
                    c += 1;
                }
            }
            if !found {
                fr += 1;
            }
        }
        proof {
            if !found {
                let (er, ec): (int, int) = choose|er: int, ec: int|
                    0 <= er < 8 && 0 <= ec < 8 && #[trigger] layout_char(l, er, ec) == 'Q';
                lemma_first_queen_in_row_le(l, er, 0, ec);
                lemma_first_queen_row_le(l, 0, er);
                assert(false);
            }
        }

        let b = Board { board: bits, q_col: q_col as u8, q_row: q_row as u8 };
        proof {
            assert(in_range(q_row as int, q_col as int));
            assert(!sq_occupied(bits, q_row as int, q_col as int));
        }
        b
    }

    /// Renders the board, one string per row: the mover glyph on the mover's
    /// square, a pawn glyph on each occupied square, a blank glyph elsewhere.
    pub fn to_string(&self) -> (rows: Vec<String>)
        ensures
            rows@.len() == 8,
            forall|r: int| 0 <= r < 8 ==> (#[trigger] rows@[r])@ == render_row(*self, r),
    {
        let mut rows: Vec<String> = Vec::new();
        let mut r: u8 = 0;
        proof {
            reveal_strlit("\u{265b}");
            reveal_strlit("\u{265f}");
            reveal_strlit("\u{b7}");
        }
        while r < 8
            invariant
                r <= 8,
                rows@.len() == r as int,
                forall|i: int| 0 <= i < r ==> (#[trigger] rows@[i])@ == render_row(*self, i),
            decreases 8 - r,
        {
            let mut rowstr = String::new();
            let mut c: u8 = 0;
            while c < 8
                invariant
                    r < 8,
                    c <= 8,
                    rowstr@ =~= render_row(*self, r as int).take(c as int),
                decreases 8 - c,
            {
                proof {
                    reveal_strlit("\u{265b}");
                    reveal_strlit("\u{265f}");
                    reveal_strlit("\u{b7}");
                }
                let glyph: &str = if r == self.q_row && c == self.q_col {
                    "\u{265b}"
                } else if self.occupied(r, c) {
                    "\u{265f}"
                } else {
                    "\u{b7}"
                };
                rowstr.append(glyph);
                proof {
                    assert(rowstr@ =~= render_row(*self, r as int).take(c as int + 1));
                }
                c += 1;
            }
            proof {
                assert(rowstr@ =~= render_row(*self, r as int));
            }
            rows.push(rowstr);
            r += 1;
        }
        rows
    }
}

} // verus!
