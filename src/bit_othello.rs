use vstd::prelude::*;
use crate::proto::{Color, Move, opposite_of, is_player};

verus! {

/// A square as (file, rank), both in 1..=8.
pub type Pos = (usize, usize);

/// Settings handed over when a game starts.
pub struct InitGame {
    pub opponent_name: String,
    pub assigned_time_ms: i32,
}

/// The position as two disjoint bit masks; square (file, rank) is bit
/// `(file - 1) * 8 + (rank - 1)`.
#[derive(Debug, PartialEq, Eq, Structural, Clone, Copy)]
pub struct Board {
    pub black: u64,
    pub white: u64,
}

// ---------------------------------------------------------------------------
// Bits, counts and squares.

/// Bit `i` of `x` is set.
pub open spec fn is_set(x: u64, i: int) -> bool {
    0 <= i < 64 && (x >> (i as u64)) & 1 == 1
}

/// Number of set bits of `x` among bits `0..n`.
pub open spec fn pop_below(x: u64, n: nat) -> nat
    decreases n,
{
    if n == 0 {
        0
    } else {
        pop_below(x, (n - 1) as nat) + if is_set(x, n - 1) { 1nat } else { 0nat }
    }
}

/// Number of set bits of `x`.
pub open spec fn popcount(x: u64) -> nat {
    pop_below(x, 64)
}

/// The square of bit `i`.
pub open spec fn pos_of(i: int) -> Pos {
    ((i / 8 + 1) as usize, (i % 8 + 1) as usize)
}

/// The bit of square `p`.
pub open spec fn bit_index(p: Pos) -> int {
    (p.0 - 1) * 8 + (p.1 - 1)
}

/// The squares of the set bits of `x` among bits `0..n`, by ascending bit.
pub open spec fn mask_positions(x: u64, n: nat) -> Seq<Pos>
    decreases n,
{
    if n == 0 {
        Seq::empty()
    } else {
        let s = mask_positions(x, (n - 1) as nat);
        if is_set(x, n - 1) {
            s.push(pos_of(n - 1))
        } else {
            s
        }
    }
}

/// Corner squares.
pub open spec fn is_corner(p: Pos) -> bool {
    (p.0 == 1 || p.0 == 8) && (p.1 == 1 || p.1 == 8)
}

/// The corner squares of `s`, in order.
pub open spec fn corners_of(s: Seq<Pos>) -> Seq<Pos>
    decreases s.len(),
{
    if s.len() == 0 {
        Seq::empty()
    } else {
        let r = corners_of(s.drop_last());
        if is_corner(s.last()) {
            r.push(s.last())
        } else {
            r
        }
    }
}

// ---------------------------------------------------------------------------
// Legal-move mask: directional sweeps over edge-masked opponent stones.

/// One step of a sweep in direction `dir` (0..8): left, right, up, down,
/// up-left, down-right, up-right, down-left.
pub open spec fn step(x: u64, dir: int) -> u64 {
    if dir == 0 {
        x << 1u64
    } else if dir == 1 {
        x >> 1u64
    } else if dir == 2 {
        x << 8u64
    } else if dir == 3 {
        x >> 8u64
    } else if dir == 4 {
        x << 9u64
    } else if dir == 5 {
        x >> 9u64
    } else if dir == 6 {
        x << 7u64
    } else {
        x >> 7u64
    }
}

/// Opponent stones that a sweep in direction `dir` may run through: the
/// edges across which a step would wrap are masked off.
pub open spec fn sweep_mask(o: u64, dir: int) -> u64 {
    if dir < 2 {
        o & 0x7e7e7e7e7e7e7e7e
    } else if dir < 4 {
        o & 0x00ffffffffffff00
    } else {
        o & 0x007e7e7e7e7e7e00
    }
}

/// Runs of `mask` stones adjoining a `p` stone in direction `dir`, after
/// `n + 1` sweep rounds.
pub open spec fn sweep(p: u64, mask: u64, dir: int, n: nat) -> u64
    decreases n,
{
    if n == 0 {
        mask & step(p, dir)
    } else {
        let t = sweep(p, mask, dir, (n - 1) as nat);
        t | (mask & step(t, dir))
    }
}

/// Empty squares that end a run of opponent stones started by a mover's
/// stone, in direction `dir`.
pub open spec fn dir_moves(p: u64, o: u64, dir: int) -> u64 {
    step(sweep(p, sweep_mask(o, dir), dir, 5), dir) & !(p | o)
}

/// Legal-move mask of the mover `p` against `o`, over all eight directions.
pub open spec fn legal_mask(p: u64, o: u64) -> u64 {
    dir_moves(p, o, 0) | dir_moves(p, o, 1) | dir_moves(p, o, 2) | dir_moves(p, o, 3)
        | dir_moves(p, o, 4) | dir_moves(p, o, 5) | dir_moves(p, o, 6) | dir_moves(p, o, 7)
}

// ---------------------------------------------------------------------------
// Flips.

/// One step from a square in direction `dir` (0..8): up, up-right, right,
/// down-right, down, down-left, left, up-left; 0 off the board.
pub open spec fn transfer_spec(put: u64, dir: int) -> u64 {
    if dir == 0 {
        (put << 8u64) & 0xffffffffffffff00
    } else if dir == 1 {
        (put << 7u64) & 0x7f7f7f7f7f7f7f00
    } else if dir == 2 {
        (put >> 1u64) & 0x7f7f7f7f7f7f7f7f
    } else if dir == 3 {
        (put >> 9u64) & 0x007f7f7f7f7f7f7f
    } else if dir == 4 {
        (put >> 8u64) & 0x00ffffffffffffff
    } else if dir == 5 {
        (put >> 7u64) & 0x00fefefefefefefe
    } else if dir == 6 {
        (put << 1u64) & 0xfefefefefefefefe
    } else if dir == 7 {
        (put << 9u64) & 0xfefefefefefefe00
    } else {
        0
    }
}

/// The walk from `mask` in direction `dir` over opponent stones, having
/// collected `acc`: the collected stones if the walk ends on a mover's
/// stone, else nothing. `fuel` bounds the walk (eight steps leave the board).
pub open spec fn walk(p: u64, o: u64, mask: u64, dir: int, acc: u64, fuel: nat) -> u64
    decreases fuel,
{
    if fuel > 0 && mask != 0 && mask & o != 0 {
        walk(p, o, transfer_spec(mask, dir), dir, acc | mask, (fuel - 1) as nat)
    } else if mask & p != 0 {
        acc
    } else {
        0
    }
}

/// Stones flipped in direction `dir` by a mover's stone placed at `put`.
pub open spec fn dir_flips(p: u64, o: u64, put: u64, dir: int) -> u64 {
    walk(p, o, transfer_spec(put, dir), dir, 0, 8)
}

/// Stones flipped in all directions by a mover's stone placed at `put`.
pub open spec fn flips_upto(p: u64, o: u64, put: u64, n: nat) -> u64
    decreases n,
{
    if n == 0 {
        0
    } else {
        flips_upto(p, o, put, (n - 1) as nat) | dir_flips(p, o, put, n - 1)
    }
}

pub open spec fn flips(p: u64, o: u64, put: u64) -> u64 {
    flips_upto(p, o, put, 8)
}

/// A square within the board.
pub open spec fn on_board(x: u32, y: u32) -> bool {
    1 <= x <= 8 && 1 <= y <= 8
}

/// The bit of a square.
pub open spec fn square_bit(x: u32, y: u32) -> u64 {
    1u64 << (((x - 1) * 8 + y - 1) as u64)
}

impl Board {
    // -----------------------------------------------------------------------
    // The model.

    /// Stones never overlap.
    pub open spec fn wf(self) -> bool {
        self.black & self.white == 0
    }

    /// Stones of `c` (white for the auxiliary colors).
    pub open spec fn mine(self, c: Color) -> u64 {
        if c == Color::Black {
            self.black
        } else {
            self.white
        }
    }

    /// Stones of the other side.
    pub open spec fn theirs(self, c: Color) -> u64 {
        if c == Color::Black {
            self.white
        } else {
            self.black
        }
    }

    /// Occupied squares.
    pub open spec fn occupied(self) -> u64 {
        self.black | self.white
    }

    pub open spec fn legal(self, c: Color) -> u64 {
        legal_mask(self.mine(c), self.theirs(c))
    }

    /// Legal squares of `c`, by ascending bit.
    pub open spec fn moves(self, c: Color) -> Seq<Pos> {
        mask_positions(self.legal(c), 64)
    }

    pub open spec fn black_count(self) -> int {
        popcount(self.black) as int
    }

    pub open spec fn white_count(self) -> int {
        popcount(self.white) as int
    }

    pub open spec fn stone_sum(self) -> int {
        self.black_count() + self.white_count()
    }

    /// Disc difference from the side of `c`.
    pub open spec fn disc_diff(self, c: Color) -> int {
        if c == Color::Black {
            self.black_count() - self.white_count()
        } else {
            self.white_count() - self.black_count()
        }
    }

    /// +1 if `c` leads, -1 if it trails, 0 on a tie.
    pub open spec fn wol(self, c: Color) -> int {
        let d = self.disc_diff(c);
        if d > 0 {
            1
        } else if d < 0 {
            -1
        } else {
            0
        }
    }

    /// Mobility difference from the side of `c`; on a board where neither
    /// side can move, 64 times the terminal sign.
    pub open spec fn mobility_diff(self, c: Color) -> int {
        let nb = popcount(self.legal(Color::Black)) as int;
        let nw = popcount(self.legal(Color::White)) as int;
        if nb == 0 && nw == 0 {
            64 * self.wol(c)
        } else if c == Color::Black {
            nb - nw
        } else {
            nw - nb
        }
    }

    /// Neither side can move.
    pub open spec fn is_terminal(self) -> bool {
        self.moves(Color::Black).len() == 0 && self.moves(Color::White).len() == 0
    }

    /// A move that `apply_move` may be given: a pass, a resignation, or an
    /// empty square on the board.
    pub open spec fn placeable(self, m: Move) -> bool {
        match m {
            Move::Mv { x_ah, y_18 } => on_board(x_ah, y_18) && square_bit(x_ah, y_18)
                & self.occupied() == 0,
            _ => true,
        }
    }

    /// Stones that playing `m` for `c` flips.
    pub open spec fn flip_mask(self, m: Move, c: Color) -> u64 {
        match m {
            Move::Mv { x_ah, y_18 } => flips(self.mine(c), self.theirs(c), square_bit(x_ah, y_18)),
            _ => 0,
        }
    }

    /// Board with the mover's and the opponent's masks replaced.
    pub open spec fn with_masks(self, c: Color, p: u64, o: u64) -> Board {
        if c == Color::Black {
            Board { black: p, white: o }
        } else {
            Board { black: o, white: p }
        }
    }

    /// The board after `c` plays `m`; a pass or a resignation changes nothing.
    pub open spec fn apply(self, m: Move, c: Color) -> Board {
        match m {
            Move::Mv { x_ah, y_18 } => {
                let f = self.flip_mask(m, c);
                self.with_masks(
                    c,
                    self.mine(c) ^ (square_bit(x_ah, y_18) | f),
                    self.theirs(c) ^ f,
                )
            },
            _ => self,
        }
    }

    /// The board before `c` played `m`, given the stones that it flipped.
    pub open spec fn undo(self, m: Move, c: Color, f: u64) -> Board {
        match m {
            Move::Mv { x_ah, y_18 } => self.with_masks(
                c,
                self.mine(c) ^ (square_bit(x_ah, y_18) | f),
                self.theirs(c) ^ f,
            ),
            _ => self,
        }
    }

    /// `m` is a legal choice for `c`: a pass exactly when `c` has no square,
    /// else one of its legal squares.
    pub open spec fn is_valid(self, m: Move, c: Color) -> bool {
        match m {
            Move::Pass => self.moves(c).len() == 0,
            Move::Mv { x_ah, y_18 } => self.moves(c).contains((x_ah as usize, y_18 as usize)),
            Move::GiveUp => false,
        }
    }
}


// ---------------------------------------------------------------------------
// Bit facts.

proof fn lemma_bit_test(x: u64, i: u64)
    requires
        i < 64,
    ensures
        (x & (1u64 << i) != 0) == ((x >> i) & 1 == 1),
{
    assert((x & (1u64 << i) != 0) == ((x >> i) & 1 == 1)) by (bit_vector)
        requires
            i < 64,
    ;
}

fn step_exec(x: u64, dir: u32) -> (r: u64)
    requires
        dir < 8,
    ensures
        r == step(x, dir as int),
{
    if dir == 0 {
        x << 1u64
    } else if dir == 1 {
        x >> 1u64
    } else if dir == 2 {
        x << 8u64
    } else if dir == 3 {
        x >> 8u64
    } else if dir == 4 {
        x << 9u64
    } else if dir == 5 {
        x >> 9u64
    } else if dir == 6 {
        x << 7u64
    } else {
        x >> 7u64
    }
}

/// Legal squares reached in direction `dir`: six sweep rounds through the
/// edge-masked opponent stones, then one step onto an empty square.
fn sweep_dir(p: u64, o: u64, blank: u64, dir: u32) -> (r: u64)
    requires
        dir < 8,
        blank == !(p | o),
    ensures
        r == dir_moves(p, o, dir as int),
{
    let mask = if dir < 2 {
        o & 0x7e7e7e7e7e7e7e7e
    } else if dir < 4 {
        o & 0x00ffffffffffff00
    } else {
        o & 0x007e7e7e7e7e7e00
    };
    let mut temp = mask & step_exec(p, dir);
    let mut n: u32 = 0;
    while n < 5
        invariant
            n <= 5,
            dir < 8,
            mask == sweep_mask(o, dir as int),
            temp == sweep(p, mask, dir as int, n as nat),
        decreases 5 - n,
    {
        temp = temp | (mask & step_exec(temp, dir));
        n = n + 1;
    }
    step_exec(temp, dir) & blank
}

/// Number of set bits of `x`.
pub fn bit_count(x: u64) -> (r: u64)
    ensures
        r as nat == popcount(x),
        r <= 64,
{
    let mut c: u64 = 0;
    let mut i: u64 = 0;
    while i < 64
        invariant
            i <= 64,
            c as nat == pop_below(x, i as nat),
            c <= i,
        decreases 64 - i,
    {
        if (x >> i) & 1 == 1 {
            c = c + 1;
        }
        i = i + 1;
    }
    c
}

/// The corner squares of `valid_moves`, in order.
pub fn get_corner_list(valid_moves: &Vec<Pos>) -> (r: Vec<Pos>)
    ensures
        r@ == corners_of(valid_moves@),
{
    let mut ret: Vec<Pos> = Vec::new();
    let mut i: usize = 0;
    while i < valid_moves.len()
        invariant
            i <= valid_moves@.len(),
            ret@ == corners_of(valid_moves@.subrange(0, i as int)),
        decreases valid_moves@.len() - i,
    {
        let m = valid_moves[i];
        if (m.0 == 1 || m.0 == 8) && (m.1 == 1 || m.1 == 8) {
            ret.push(m);
        }
        assert(valid_moves@.subrange(0, i + 1).drop_last() == valid_moves@.subrange(0, i as int));
        i = i + 1;
    }
    assert(valid_moves@.subrange(0, i as int) == valid_moves@);
    ret
}

/// `x` has at most one set bit.
pub open spec fn at_most_one_bit(x: u64) -> bool {
    x == 0 || x & ((x - 1) as u64) == 0
}

proof fn lemma_transfer_one_bit(x: u64, dir: int)
    requires
        at_most_one_bit(x),
    ensures
        at_most_one_bit(transfer_spec(x, dir)),
{
    if dir == 0 {
        assert(at_most_one_bit((x << 8u64) & 0xffffffffffffff00)) by (bit_vector)
            requires
                at_most_one_bit(x),
        ;
    } else if dir == 1 {
        assert(at_most_one_bit((x << 7u64) & 0x7f7f7f7f7f7f7f00)) by (bit_vector)
            requires
                at_most_one_bit(x),
        ;
    } else if dir == 2 {
        assert(at_most_one_bit((x >> 1u64) & 0x7f7f7f7f7f7f7f7f)) by (bit_vector)
            requires
                at_most_one_bit(x),
        ;
    } else if dir == 3 {
        assert(at_most_one_bit((x >> 9u64) & 0x007f7f7f7f7f7f7f)) by (bit_vector)
            requires
                at_most_one_bit(x),
        ;
    } else if dir == 4 {
        assert(at_most_one_bit((x >> 8u64) & 0x00ffffffffffffff)) by (bit_vector)
            requires
                at_most_one_bit(x),
        ;
    } else if dir == 5 {
        assert(at_most_one_bit((x >> 7u64) & 0x00fefefefefefefe)) by (bit_vector)
            requires
                at_most_one_bit(x),
        ;
    } else if dir == 6 {
        assert(at_most_one_bit((x << 1u64) & 0xfefefefefefefefe)) by (bit_vector)
            requires
                at_most_one_bit(x),
        ;
    } else if dir == 7 {
        assert(at_most_one_bit((x << 9u64) & 0xfefefefefefefe00)) by (bit_vector)
            requires
                at_most_one_bit(x),
        ;
    } else {
        assert(at_most_one_bit(0u64)) by (bit_vector);
    }
}

/// A walk collects opponent stones only.
proof fn lemma_walk_within(p: u64, o: u64, mask: u64, dir: int, acc: u64, fuel: nat)
    requires
        at_most_one_bit(mask),
        acc & !o == 0,
    ensures
        walk(p, o, mask, dir, acc, fuel) & !o == 0,
    decreases fuel,
{
    if fuel > 0 && mask != 0 && mask & o != 0 {
        assert((acc | mask) & !o == 0) by (bit_vector)
            requires
                at_most_one_bit(mask),
                mask != 0,
                mask & o != 0,
                acc & !o == 0,
        ;
        lemma_transfer_one_bit(mask, dir);
        lemma_walk_within(p, o, transfer_spec(mask, dir), dir, acc | mask, (fuel - 1) as nat);
    } else {
        assert(0u64 & !o == 0) by (bit_vector);
    }
}

/// Placing a stone flips opponent stones only.
proof fn lemma_flips_within(p: u64, o: u64, put: u64, n: nat)
    requires
        at_most_one_bit(put),
    ensures
        flips_upto(p, o, put, n) & !o == 0,
    decreases n,
{
    if n == 0 {
        assert(0u64 & !o == 0) by (bit_vector);
    } else {
        lemma_flips_within(p, o, put, (n - 1) as nat);
        lemma_transfer_one_bit(put, n - 1);
        assert(0u64 & !o == 0) by (bit_vector);
        lemma_walk_within(p, o, transfer_spec(put, n - 1), n - 1, 0, 8);
        let a = flips_upto(p, o, put, (n - 1) as nat);
        let b = dir_flips(p, o, put, n - 1);
        assert((a | b) & !o == 0) by (bit_vector)
            requires
                a & !o == 0,
                b & !o == 0,
        ;
    }
}

proof fn lemma_square_bit(x: u32, y: u32)
    requires
        on_board(x, y),
    ensures
        at_most_one_bit(square_bit(x, y)),
        square_bit(x, y) != 0,
{
    let k = ((x - 1) * 8 + y - 1) as u64;
    assert(k < 64);
    assert(at_most_one_bit(1u64 << k) && (1u64 << k) != 0) by (bit_vector)
        requires
            k < 64,
    ;
}

fn transfer(put: u64, dir: u32) -> (r: u64)
    ensures
        r == transfer_spec(put, dir as int),
{
    match dir {
        0 => (put << 8u64) & 0xffffffffffffff00,
        1 => (put << 7u64) & 0x7f7f7f7f7f7f7f00,
        2 => (put >> 1u64) & 0x7f7f7f7f7f7f7f7f,
        3 => (put >> 9u64) & 0x007f7f7f7f7f7f7f,
        4 => (put >> 8u64) & 0x00ffffffffffffff,
        5 => (put >> 7u64) & 0x00fefefefefefefe,
        6 => (put << 1u64) & 0xfefefefefefefefe,
        7 => (put << 9u64) & 0xfefefefefefefe00,
        _ => 0,
    }
}

impl Board {
    /// The starting position.
    pub fn new() -> (r: Self)
        ensures
            r.black == 0x0000000810000000u64,
            r.white == 0x0000001008000000u64,
            r.wf(),
    {
        let r = Self { black: 0x0000000810000000, white: 0x0000001008000000 };
        assert(0x0000000810000000u64 & 0x0000001008000000u64 == 0) by (bit_vector);
        r
    }

    /// Legal-move mask of `color`.
    pub fn can_put(&self, color: Color) -> (r: u64)
        ensures
            r == self.legal(color),
    {
        let p;
        let o;
        if color == Color::Black {
            p = self.black;
            o = self.white;
        } else {
            p = self.white;
            o = self.black;
        }
        let blank = !(p | o);
        let mut ans = sweep_dir(p, o, blank, 0);
        ans = ans | sweep_dir(p, o, blank, 1);
        ans = ans | sweep_dir(p, o, blank, 2);
        ans = ans | sweep_dir(p, o, blank, 3);
        ans = ans | sweep_dir(p, o, blank, 4);
        ans = ans | sweep_dir(p, o, blank, 5);
        ans = ans | sweep_dir(p, o, blank, 6);
        ans = ans | sweep_dir(p, o, blank, 7);
        ans
    }

    /// Legal squares of `color`, by ascending bit index.
    pub fn valid_moves(&self, color: Color) -> (r: Vec<Pos>)
        ensures
            r@ == self.moves(color),
    {
        let mut ret: Vec<Pos> = Vec::new();
        let can_put = self.can_put(color);
        let mut i: u64 = 0;
        while i < 64
            invariant
                i <= 64,
                can_put == self.legal(color),
                ret@ == mask_positions(can_put, i as nat),
            decreases 64 - i,
        {
            proof {
                lemma_bit_test(can_put, i);
            }
            if can_put & (1u64 << i) != 0 {
                ret.push(((i / 8 + 1) as usize, (i % 8 + 1) as usize));
            }
            i = i + 1;
        }
        ret
    }

    /// Stones of black and of white.
    pub fn count_stones(&self) -> (r: (u64, u64))
        ensures
            r.0 as int == self.black_count(),
            r.1 as int == self.white_count(),
            r.0 <= 64,
            r.1 <= 64,
    {
        (bit_count(self.black), bit_count(self.white))
    }

    /// +1 if `color` leads, -1 if it trails, 0 on a tie.
    pub fn win_or_lose(&self, color: Color) -> (r: i32)
        ensures
            r as int == self.wol(color),
    {
        let (black, white) = self.count_stones();
        if color == Color::Black {
            if black > white {
                1
            } else if black < white {
                -1
            } else {
                0
            }
        } else {
            if black > white {
                -1
            } else if black < white {
                1
            } else {
                0
            }
        }
    }

    /// Stones on the board.
    pub fn sum_stones(&self) -> (r: u64)
        ensures
            r as int == self.stone_sum(),
            r <= 128,
    {
        let (black, white) = self.count_stones();
        black + white
    }

    /// Disc difference from the side of `color`.
    pub fn diff_stones(&self, color: Color) -> (r: i32)
        ensures
            r as int == self.disc_diff(color),
    {
        let (black, white) = self.count_stones();
        if color == Color::Black {
            black as i32 - white as i32
        } else {
            white as i32 - black as i32
        }
    }

    /// Mobility difference from the side of `color`; 64 times the terminal
    /// sign when neither side can move.
    pub fn canput_diff(&self, color: Color) -> (r: i32)
        ensures
            r as int == self.mobility_diff(color),
    {
        let black = self.can_put(Color::Black);
        let white = self.can_put(Color::White);
        let black_count = bit_count(black);
        let white_count = bit_count(white);
        if black_count == 0 && white_count == 0 {
            64 * self.win_or_lose(color)
        } else if color == Color::Black {
            black_count as i32 - white_count as i32
        } else {
            white_count as i32 - black_count as i32
        }
    }

    /// Plays `m` for `color`: places the stone and flips what it flanks. A
    /// pass or a resignation changes nothing.
    pub fn do_move(&mut self, m: Move, color: Color)
        requires
            match m {
                Move::Mv { x_ah, y_18 } => on_board(x_ah, y_18),
                _ => true,
            },
        ensures
            *final(self) == old(self).apply(m, color),
            old(self).wf() && old(self).placeable(m) ==> final(self).wf(),
    {
        if let Move::Mv { x_ah, y_18 } = m {
            let p = if color == Color::Black { self.black } else { self.white };
            let o = if color == Color::Black { self.white } else { self.black };
            let pos = ((x_ah - 1) * 8 + y_18 - 1) as u64;
            let pos_bit = 1u64 << pos;
            let mut rev: u64 = 0;
            let mut i: u32 = 0;
            while i < 8
                invariant
                    i <= 8,
                    pos_bit == square_bit(x_ah, y_18),
                    rev == flips_upto(p, o, pos_bit, i as nat),
                decreases 8 - i,
            {
                let mut rev_temp: u64 = 0;
                let mut mask = transfer(pos_bit, i);
                let mut k: u32 = 0;
                while k < 8 && mask != 0 && (mask & o) != 0
                    invariant
                        k <= 8,
                        i < 8,
                        walk(p, o, mask, i as int, rev_temp, (8 - k) as nat) == dir_flips(
                            p,
                            o,
                            pos_bit,
                            i as int,
                        ),
                    decreases 8 - k,
                {
                    rev_temp = rev_temp | mask;
                    mask = transfer(mask, i);
                    k = k + 1;
                }
                if (mask & p) != 0 {
                    rev = rev | rev_temp;
                } else {
                    assert(rev | 0u64 == rev) by (bit_vector);
                }
                i = i + 1;
            }
            let np = p ^ (pos_bit | rev);
            let no = o ^ rev;
            if color == Color::Black {
                self.black = np;
                self.white = no;
            } else {
                self.white = np;
                self.black = no;
            }
            proof {
                if old(self).wf() && old(self).placeable(m) {
                    lemma_apply_keeps_disjoint(*old(self), m, color);
                }
            }
        }
    }

    /// `m` is a legal choice for `color`: a pass exactly when there is no
    /// legal square, else one of the legal squares.
    pub fn check_valid_move(&self, m: Move, color: Color) -> (r: bool)
        ensures
            r == self.is_valid(m, color),
    {
        let valid_moves = self.valid_moves(color);
        if valid_moves.len() == 0 && m == Move::Pass {
            true
        } else if let Move::Mv { x_ah, y_18 } = m {
            let x = x_ah as usize;
            let y = y_18 as usize;
            let mut i: usize = 0;
            while i < valid_moves.len()
                invariant
                    i <= valid_moves@.len(),
                    valid_moves@ == self.moves(color),
                    m == (Move::Mv { x_ah, y_18 }),
                    x == x_ah as usize,
                    y == y_18 as usize,
                    forall|j: int| 0 <= j < i ==> valid_moves@[j] != (x, y),
                decreases valid_moves@.len() - i,
            {
                if valid_moves[i].0 == x && valid_moves[i].1 == y {
                    assert(valid_moves@[i as int] == (x, y));
                    assert(self.moves(color).contains((x_ah as usize, y_18 as usize)));
                    return true;
                }
                i = i + 1;
            }
            false
        } else {
            false
        }
    }
}

/// At most `n` of the bits `0..n` are set.
pub proof fn lemma_pop_below_bound(x: u64, n: nat)
    ensures
        pop_below(x, n) <= n,
    decreases n,
{
    if n > 0 {
        lemma_pop_below_bound(x, (n - 1) as nat);
    }
}

/// Playing an empty square keeps the two colors disjoint, and the occupied
/// squares become the old ones plus the played square.
pub proof fn lemma_apply_keeps_disjoint(b: Board, m: Move, c: Color)
    requires
        b.wf(),
        b.placeable(m),
    ensures
        b.apply(m, c).wf(),
        match m {
            Move::Mv { x_ah, y_18 } => b.apply(m, c).occupied() == b.occupied() | square_bit(
                x_ah,
                y_18,
            ) && b.apply(m, c).occupied() > b.occupied(),
            _ => b.apply(m, c) == b,
        },
{
    if let Move::Mv { x_ah, y_18 } = m {
        let p = b.mine(c);
        let o = b.theirs(c);
        let bl = b.black;
        let w = b.white;
        let pos_bit = square_bit(x_ah, y_18);
        lemma_square_bit(x_ah, y_18);
        lemma_flips_within(p, o, pos_bit, 8);
        let rev = flips(p, o, pos_bit);
        assert(p & o == 0 && p | o == bl | w && o | p == bl | w) by (bit_vector)
            requires
                (p == bl && o == w) || (p == w && o == bl),
                bl & w == 0,
        ;
        let np = p ^ (pos_bit | rev);
        let no = o ^ rev;
        assert(np & no == 0 && no & np == 0 && np | no == (p | o) | pos_bit && no | np == (p | o)
            | pos_bit && (p | o) | pos_bit > (p | o)) by (bit_vector)
            requires
                np == p ^ (pos_bit | rev),
                no == o ^ rev,
                p & o == 0,
                pos_bit & (p | o) == 0,
                pos_bit != 0,
                rev & !o == 0,
        ;
    }
}

/// The move that plays square `p`.
pub open spec fn move_of(p: Pos) -> Move {
    Move::Mv { x_ah: p.0 as u32, y_18: p.1 as u32 }
}

proof fn lemma_legal_empty(p: u64, o: u64)
    ensures
        legal_mask(p, o) & (p | o) == 0,
{
    let q = p | o;
    let d0 = dir_moves(p, o, 0);
    let d1 = dir_moves(p, o, 1);
    let d2 = dir_moves(p, o, 2);
    let d3 = dir_moves(p, o, 3);
    let d4 = dir_moves(p, o, 4);
    let d5 = dir_moves(p, o, 5);
    let d6 = dir_moves(p, o, 6);
    let d7 = dir_moves(p, o, 7);
    let y0 = step(sweep(p, sweep_mask(o, 0), 0, 5), 0);
    let y1 = step(sweep(p, sweep_mask(o, 1), 1, 5), 1);
    let y2 = step(sweep(p, sweep_mask(o, 2), 2, 5), 2);
    let y3 = step(sweep(p, sweep_mask(o, 3), 3, 5), 3);
    let y4 = step(sweep(p, sweep_mask(o, 4), 4, 5), 4);
    let y5 = step(sweep(p, sweep_mask(o, 5), 5, 5), 5);
    let y6 = step(sweep(p, sweep_mask(o, 6), 6, 5), 6);
    let y7 = step(sweep(p, sweep_mask(o, 7), 7, 5), 7);
    assert((d0 | d1 | d2 | d3 | d4 | d5 | d6 | d7) & q == 0) by (bit_vector)
        requires
            d0 == y0 & !q,
            d1 == y1 & !q,
            d2 == y2 & !q,
            d3 == y3 & !q,
            d4 == y4 & !q,
            d5 == y5 & !q,
            d6 == y6 & !q,
            d7 == y7 & !q,
    ;
}

/// A legal square of a well-formed board is empty and on the board;
/// playing it keeps the board well-formed and adds a stone.
pub proof fn lemma_legal_move_places(b: Board, c: Color, k: int)
    requires
        b.wf(),
        0 <= k < b.moves(c).len(),
    ensures
        on_board(b.moves(c)[k].0 as u32, b.moves(c)[k].1 as u32),
        b.placeable(move_of(b.moves(c)[k])),
        b.apply(move_of(b.moves(c)[k]), c).wf(),
        b.apply(move_of(b.moves(c)[k]), c).occupied() > b.occupied(),
{
    law_moves_are_mask_bits(b, c);
    let pos = b.moves(c)[k];
    let i = bit_index(pos);
    let x = pos.0 as u32;
    let y = pos.1 as u32;
    assert(pos == pos_of(i));
    assert(((x - 1) * 8 + y - 1) == i);
    let iu = i as u64;
    let legal = b.legal(c);
    let occ = b.mine(c) | b.theirs(c);
    lemma_legal_empty(b.mine(c), b.theirs(c));
    let bl = b.black;
    let w = b.white;
    assert(occ == bl | w) by (bit_vector)
        requires
            occ == bl | w || occ == w | bl,
    ;
    assert((1u64 << iu) & occ == 0) by (bit_vector)
        requires
            iu < 64,
            (legal >> iu) & 1 == 1,
            legal & occ == 0,
    ;
    lemma_apply_keeps_disjoint(b, move_of(pos), c);
}

/// Playing a legal square is a valid move.
pub proof fn lemma_move_of_valid(b: Board, c: Color, k: int)
    requires
        0 <= k < b.moves(c).len(),
    ensures
        b.is_valid(move_of(b.moves(c)[k]), c),
        b.moves(c)[k].0 <= 8,
        b.moves(c)[k].1 <= 8,
{
    law_moves_are_mask_bits(b, c);
    let pos = b.moves(c)[k];
    assert(pos == pos_of(bit_index(pos)));
    assert((pos.0 as u32) as usize == pos.0 && (pos.1 as u32) as usize == pos.1);
    assert(b.moves(c)[k] == ((pos.0 as u32) as usize, (pos.1 as u32) as usize));
}

impl Default for Board {
    /// The starting position.
    fn default() -> (r: Self)
        ensures
            r == (Board { black: 0x0000000810000000u64, white: 0x0000001008000000u64 }),
    {
        Self::new()
    }
}

// ---------------------------------------------------------------------------
// Legal squares by the flipping rule.

proof fn lemma_rule_dir0(p: u64, o: u64, i: u64)
    requires
        i < 64,
        p & o == 0,
    ensures
        ((dir_moves(p, o, 0) >> i) & 1 == 1) == (((p | o) >> i) & 1 == 0 && dir_flips(
            p,
            o,
            1u64 << i,
            2,
        ) != 0),
{
    reveal_with_fuel(sweep, 6);
    reveal_with_fuel(walk, 10);
    let m = o & 0x7e7e7e7e7e7e7e7e;
    let t0 = m & (p << 1u64);
    let t1 = t0 | (m & (t0 << 1u64));
    let t2 = t1 | (m & (t1 << 1u64));
    let t3 = t2 | (m & (t2 << 1u64));
    let t4 = t3 | (m & (t3 << 1u64));
    let t5 = t4 | (m & (t4 << 1u64));
    assert(dir_moves(p, o, 0) == (t5 << 1u64) & !(p | o));
    let put = 1u64 << i;
    let w1 = (put >> 1u64) & 0x7f7f7f7f7f7f7f7f;
    let w2 = (w1 >> 1u64) & 0x7f7f7f7f7f7f7f7f;
    let w3 = (w2 >> 1u64) & 0x7f7f7f7f7f7f7f7f;
    let w4 = (w3 >> 1u64) & 0x7f7f7f7f7f7f7f7f;
    let w5 = (w4 >> 1u64) & 0x7f7f7f7f7f7f7f7f;
    let w6 = (w5 >> 1u64) & 0x7f7f7f7f7f7f7f7f;
    let w7 = (w6 >> 1u64) & 0x7f7f7f7f7f7f7f7f;
    let w8 = (w7 >> 1u64) & 0x7f7f7f7f7f7f7f7f;
    let w9 = (w8 >> 1u64) & 0x7f7f7f7f7f7f7f7f;
    let f = if w1 != 0 && w1 & o != 0 { if w2 != 0 && w2 & o != 0 { if w3 != 0 && w3 & o != 0 { if w4 != 0 && w4 & o != 0 { if w5 != 0 && w5 & o != 0 { if w6 != 0 && w6 & o != 0 { if w7 != 0 && w7 & o != 0 { if w8 != 0 && w8 & o != 0 { if w9 & p != 0 { ((((((((0u64 | w1) | w2) | w3) | w4) | w5) | w6) | w7) | w8) } else { 0u64 } } else if w8 & p != 0 { (((((((0u64 | w1) | w2) | w3) | w4) | w5) | w6) | w7) } else { 0u64 } } else if w7 & p != 0 { ((((((0u64 | w1) | w2) | w3) | w4) | w5) | w6) } else { 0u64 } } else if w6 & p != 0 { (((((0u64 | w1) | w2) | w3) | w4) | w5) } else { 0u64 } } else if w5 & p != 0 { ((((0u64 | w1) | w2) | w3) | w4) } else { 0u64 } } else if w4 & p != 0 { (((0u64 | w1) | w2) | w3) } else { 0u64 } } else if w3 & p != 0 { ((0u64 | w1) | w2) } else { 0u64 } } else if w2 & p != 0 { (0u64 | w1) } else { 0u64 } } else if w1 & p != 0 { 0u64 } else { 0u64 };
    assert(dir_flips(p, o, put, 2) == f);
    assert(((((t5 << 1u64) & !(p | o)) >> i) & 1 == 1) == (((p | o) >> i) & 1 == 0 && f != 0)) by (bit_vector)
        requires
            i < 64,
            p & o == 0,
            m == o & 0x7e7e7e7e7e7e7e7e,
            t0 == m & (p << 1u64),
            t1 == t0 | (m & (t0 << 1u64)),
            t2 == t1 | (m & (t1 << 1u64)),
            t3 == t2 | (m & (t2 << 1u64)),
            t4 == t3 | (m & (t3 << 1u64)),
            t5 == t4 | (m & (t4 << 1u64)),
            put == 1u64 << i,
            w1 == (put >> 1u64) & 0x7f7f7f7f7f7f7f7f,
            w2 == (w1 >> 1u64) & 0x7f7f7f7f7f7f7f7f,
            w3 == (w2 >> 1u64) & 0x7f7f7f7f7f7f7f7f,
            w4 == (w3 >> 1u64) & 0x7f7f7f7f7f7f7f7f,
            w5 == (w4 >> 1u64) & 0x7f7f7f7f7f7f7f7f,
            w6 == (w5 >> 1u64) & 0x7f7f7f7f7f7f7f7f,
            w7 == (w6 >> 1u64) & 0x7f7f7f7f7f7f7f7f,
            w8 == (w7 >> 1u64) & 0x7f7f7f7f7f7f7f7f,
            w9 == (w8 >> 1u64) & 0x7f7f7f7f7f7f7f7f,
            f == (if w1 != 0 && w1 & o != 0 { if w2 != 0 && w2 & o != 0 { if w3 != 0 && w3 & o != 0 { if w4 != 0 && w4 & o != 0 { if w5 != 0 && w5 & o != 0 { if w6 != 0 && w6 & o != 0 { if w7 != 0 && w7 & o != 0 { if w8 != 0 && w8 & o != 0 { if w9 & p != 0 { ((((((((0u64 | w1) | w2) | w3) | w4) | w5) | w6) | w7) | w8) } else { 0u64 } } else if w8 & p != 0 { (((((((0u64 | w1) | w2) | w3) | w4) | w5) | w6) | w7) } else { 0u64 } } else if w7 & p != 0 { ((((((0u64 | w1) | w2) | w3) | w4) | w5) | w6) } else { 0u64 } } else if w6 & p != 0 { (((((0u64 | w1) | w2) | w3) | w4) | w5) } else { 0u64 } } else if w5 & p != 0 { ((((0u64 | w1) | w2) | w3) | w4) } else { 0u64 } } else if w4 & p != 0 { (((0u64 | w1) | w2) | w3) } else { 0u64 } } else if w3 & p != 0 { ((0u64 | w1) | w2) } else { 0u64 } } else if w2 & p != 0 { (0u64 | w1) } else { 0u64 } } else if w1 & p != 0 { 0u64 } else { 0u64 }),
    ;
}

proof fn lemma_rule_dir1(p: u64, o: u64, i: u64)
    requires
        i < 64,
        p & o == 0,
    ensures
        ((dir_moves(p, o, 1) >> i) & 1 == 1) == (((p | o) >> i) & 1 == 0 && dir_flips(
            p,
            o,
            1u64 << i,
            6,
        ) != 0),
{
    reveal_with_fuel(sweep, 6);
    reveal_with_fuel(walk, 10);
    let m = o & 0x7e7e7e7e7e7e7e7e;
    let t0 = m & (p >> 1u64);
    let t1 = t0 | (m & (t0 >> 1u64));
    let t2 = t1 | (m & (t1 >> 1u64));
    let t3 = t2 | (m & (t2 >> 1u64));
    let t4 = t3 | (m & (t3 >> 1u64));
    let t5 = t4 | (m & (t4 >> 1u64));
    assert(dir_moves(p, o, 1) == (t5 >> 1u64) & !(p | o));
    let put = 1u64 << i;
    let w1 = (put << 1u64) & 0xfefefefefefefefe;
    let w2 = (w1 << 1u64) & 0xfefefefefefefefe;
    let w3 = (w2 << 1u64) & 0xfefefefefefefefe;
    let w4 = (w3 << 1u64) & 0xfefefefefefefefe;
    let w5 = (w4 << 1u64) & 0xfefefefefefefefe;
    let w6 = (w5 << 1u64) & 0xfefefefefefefefe;
    let w7 = (w6 << 1u64) & 0xfefefefefefefefe;
    let w8 = (w7 << 1u64) & 0xfefefefefefefefe;
    let w9 = (w8 << 1u64) & 0xfefefefefefefefe;
    let f = if w1 != 0 && w1 & o != 0 { if w2 != 0 && w2 & o != 0 { if w3 != 0 && w3 & o != 0 { if w4 != 0 && w4 & o != 0 { if w5 != 0 && w5 & o != 0 { if w6 != 0 && w6 & o != 0 { if w7 != 0 && w7 & o != 0 { if w8 != 0 && w8 & o != 0 { if w9 & p != 0 { ((((((((0u64 | w1) | w2) | w3) | w4) | w5) | w6) | w7) | w8) } else { 0u64 } } else if w8 & p != 0 { (((((((0u64 | w1) | w2) | w3) | w4) | w5) | w6) | w7) } else { 0u64 } } else if w7 & p != 0 { ((((((0u64 | w1) | w2) | w3) | w4) | w5) | w6) } else { 0u64 } } else if w6 & p != 0 { (((((0u64 | w1) | w2) | w3) | w4) | w5) } else { 0u64 } } else if w5 & p != 0 { ((((0u64 | w1) | w2) | w3) | w4) } else { 0u64 } } else if w4 & p != 0 { (((0u64 | w1) | w2) | w3) } else { 0u64 } } else if w3 & p != 0 { ((0u64 | w1) | w2) } else { 0u64 } } else if w2 & p != 0 { (0u64 | w1) } else { 0u64 } } else if w1 & p != 0 { 0u64 } else { 0u64 };
    assert(dir_flips(p, o, put, 6) == f);
    assert(((((t5 >> 1u64) & !(p | o)) >> i) & 1 == 1) == (((p | o) >> i) & 1 == 0 && f != 0)) by (bit_vector)
        requires
            i < 64,
            p & o == 0,
            m == o & 0x7e7e7e7e7e7e7e7e,
            t0 == m & (p >> 1u64),
            t1 == t0 | (m & (t0 >> 1u64)),
            t2 == t1 | (m & (t1 >> 1u64)),
            t3 == t2 | (m & (t2 >> 1u64)),
            t4 == t3 | (m & (t3 >> 1u64)),
            t5 == t4 | (m & (t4 >> 1u64)),
            put == 1u64 << i,
            w1 == (put << 1u64) & 0xfefefefefefefefe,
            w2 == (w1 << 1u64) & 0xfefefefefefefefe,
            w3 == (w2 << 1u64) & 0xfefefefefefefefe,
            w4 == (w3 << 1u64) & 0xfefefefefefefefe,
            w5 == (w4 << 1u64) & 0xfefefefefefefefe,
            w6 == (w5 << 1u64) & 0xfefefefefefefefe,
            w7 == (w6 << 1u64) & 0xfefefefefefefefe,
            w8 == (w7 << 1u64) & 0xfefefefefefefefe,
            w9 == (w8 << 1u64) & 0xfefefefefefefefe,
            f == (if w1 != 0 && w1 & o != 0 { if w2 != 0 && w2 & o != 0 { if w3 != 0 && w3 & o != 0 { if w4 != 0 && w4 & o != 0 { if w5 != 0 && w5 & o != 0 { if w6 != 0 && w6 & o != 0 { if w7 != 0 && w7 & o != 0 { if w8 != 0 && w8 & o != 0 { if w9 & p != 0 { ((((((((0u64 | w1) | w2) | w3) | w4) | w5) | w6) | w7) | w8) } else { 0u64 } } else if w8 & p != 0 { (((((((0u64 | w1) | w2) | w3) | w4) | w5) | w6) | w7) } else { 0u64 } } else if w7 & p != 0 { ((((((0u64 | w1) | w2) | w3) | w4) | w5) | w6) } else { 0u64 } } else if w6 & p != 0 { (((((0u64 | w1) | w2) | w3) | w4) | w5) } else { 0u64 } } else if w5 & p != 0 { ((((0u64 | w1) | w2) | w3) | w4) } else { 0u64 } } else if w4 & p != 0 { (((0u64 | w1) | w2) | w3) } else { 0u64 } } else if w3 & p != 0 { ((0u64 | w1) | w2) } else { 0u64 } } else if w2 & p != 0 { (0u64 | w1) } else { 0u64 } } else if w1 & p != 0 { 0u64 } else { 0u64 }),
    ;
}

proof fn lemma_rule_dir2(p: u64, o: u64, i: u64)
    requires
        i < 64,
        p & o == 0,
    ensures
        ((dir_moves(p, o, 2) >> i) & 1 == 1) == (((p | o) >> i) & 1 == 0 && dir_flips(
            p,
            o,
            1u64 << i,
            4,
        ) != 0),
{
    reveal_with_fuel(sweep, 6);
    reveal_with_fuel(walk, 10);
    let m = o & 0x00ffffffffffff00;
    let t0 = m & (p << 8u64);
    let t1 = t0 | (m & (t0 << 8u64));
    let t2 = t1 | (m & (t1 << 8u64));
    let t3 = t2 | (m & (t2 << 8u64));
    let t4 = t3 | (m & (t3 << 8u64));
    let t5 = t4 | (m & (t4 << 8u64));
    assert(dir_moves(p, o, 2) == (t5 << 8u64) & !(p | o));
    let put = 1u64 << i;
    let w1 = (put >> 8u64) & 0x00ffffffffffffff;
    let w2 = (w1 >> 8u64) & 0x00ffffffffffffff;
    let w3 = (w2 >> 8u64) & 0x00ffffffffffffff;
    let w4 = (w3 >> 8u64) & 0x00ffffffffffffff;
    let w5 = (w4 >> 8u64) & 0x00ffffffffffffff;
    let w6 = (w5 >> 8u64) & 0x00ffffffffffffff;
    let w7 = (w6 >> 8u64) & 0x00ffffffffffffff;
    let w8 = (w7 >> 8u64) & 0x00ffffffffffffff;
    let w9 = (w8 >> 8u64) & 0x00ffffffffffffff;
    let f = if w1 != 0 && w1 & o != 0 { if w2 != 0 && w2 & o != 0 { if w3 != 0 && w3 & o != 0 { if w4 != 0 && w4 & o != 0 { if w5 != 0 && w5 & o != 0 { if w6 != 0 && w6 & o != 0 { if w7 != 0 && w7 & o != 0 { if w8 != 0 && w8 & o != 0 { if w9 & p != 0 { ((((((((0u64 | w1) | w2) | w3) | w4) | w5) | w6) | w7) | w8) } else { 0u64 } } else if w8 & p != 0 { (((((((0u64 | w1) | w2) | w3) | w4) | w5) | w6) | w7) } else { 0u64 } } else if w7 & p != 0 { ((((((0u64 | w1) | w2) | w3) | w4) | w5) | w6) } else { 0u64 } } else if w6 & p != 0 { (((((0u64 | w1) | w2) | w3) | w4) | w5) } else { 0u64 } } else if w5 & p != 0 { ((((0u64 | w1) | w2) | w3) | w4) } else { 0u64 } } else if w4 & p != 0 { (((0u64 | w1) | w2) | w3) } else { 0u64 } } else if w3 & p != 0 { ((0u64 | w1) | w2) } else { 0u64 } } else if w2 & p != 0 { (0u64 | w1) } else { 0u64 } } else if w1 & p != 0 { 0u64 } else { 0u64 };
    assert(dir_flips(p, o, put, 4) == f);
    assert(((((t5 << 8u64) & !(p | o)) >> i) & 1 == 1) == (((p | o) >> i) & 1 == 0 && f != 0)) by (bit_vector)
        requires
            i < 64,
            p & o == 0,
            m == o & 0x00ffffffffffff00,
            t0 == m & (p << 8u64),
            t1 == t0 | (m & (t0 << 8u64)),
            t2 == t1 | (m & (t1 << 8u64)),
            t3 == t2 | (m & (t2 << 8u64)),
            t4 == t3 | (m & (t3 << 8u64)),
            t5 == t4 | (m & (t4 << 8u64)),
            put == 1u64 << i,
            w1 == (put >> 8u64) & 0x00ffffffffffffff,
            w2 == (w1 >> 8u64) & 0x00ffffffffffffff,
            w3 == (w2 >> 8u64) & 0x00ffffffffffffff,
            w4 == (w3 >> 8u64) & 0x00ffffffffffffff,
            w5 == (w4 >> 8u64) & 0x00ffffffffffffff,
            w6 == (w5 >> 8u64) & 0x00ffffffffffffff,
            w7 == (w6 >> 8u64) & 0x00ffffffffffffff,
            w8 == (w7 >> 8u64) & 0x00ffffffffffffff,
            w9 == (w8 >> 8u64) & 0x00ffffffffffffff,
            f == (if w1 != 0 && w1 & o != 0 { if w2 != 0 && w2 & o != 0 { if w3 != 0 && w3 & o != 0 { if w4 != 0 && w4 & o != 0 { if w5 != 0 && w5 & o != 0 { if w6 != 0 && w6 & o != 0 { if w7 != 0 && w7 & o != 0 { if w8 != 0 && w8 & o != 0 { if w9 & p != 0 { ((((((((0u64 | w1) | w2) | w3) | w4) | w5) | w6) | w7) | w8) } else { 0u64 } } else if w8 & p != 0 { (((((((0u64 | w1) | w2) | w3) | w4) | w5) | w6) | w7) } else { 0u64 } } else if w7 & p != 0 { ((((((0u64 | w1) | w2) | w3) | w4) | w5) | w6) } else { 0u64 } } else if w6 & p != 0 { (((((0u64 | w1) | w2) | w3) | w4) | w5) } else { 0u64 } } else if w5 & p != 0 { ((((0u64 | w1) | w2) | w3) | w4) } else { 0u64 } } else if w4 & p != 0 { (((0u64 | w1) | w2) | w3) } else { 0u64 } } else if w3 & p != 0 { ((0u64 | w1) | w2) } else { 0u64 } } else if w2 & p != 0 { (0u64 | w1) } else { 0u64 } } else if w1 & p != 0 { 0u64 } else { 0u64 }),
    ;
}

proof fn lemma_rule_dir3(p: u64, o: u64, i: u64)
    requires
        i < 64,
        p & o == 0,
    ensures
        ((dir_moves(p, o, 3) >> i) & 1 == 1) == (((p | o) >> i) & 1 == 0 && dir_flips(
            p,
            o,
            1u64 << i,
            0,
        ) != 0),
{
    reveal_with_fuel(sweep, 6);
    reveal_with_fuel(walk, 10);
    let m = o & 0x00ffffffffffff00;
    let t0 = m & (p >> 8u64);
    let t1 = t0 | (m & (t0 >> 8u64));
    let t2 = t1 | (m & (t1 >> 8u64));
    let t3 = t2 | (m & (t2 >> 8u64));
    let t4 = t3 | (m & (t3 >> 8u64));
    let t5 = t4 | (m & (t4 >> 8u64));
    assert(dir_moves(p, o, 3) == (t5 >> 8u64) & !(p | o));
    let put = 1u64 << i;
    let w1 = (put << 8u64) & 0xffffffffffffff00;
    let w2 = (w1 << 8u64) & 0xffffffffffffff00;
    let w3 = (w2 << 8u64) & 0xffffffffffffff00;
    let w4 = (w3 << 8u64) & 0xffffffffffffff00;
    let w5 = (w4 << 8u64) & 0xffffffffffffff00;
    let w6 = (w5 << 8u64) & 0xffffffffffffff00;
    let w7 = (w6 << 8u64) & 0xffffffffffffff00;
    let w8 = (w7 << 8u64) & 0xffffffffffffff00;
    let w9 = (w8 << 8u64) & 0xffffffffffffff00;
    let f = if w1 != 0 && w1 & o != 0 { if w2 != 0 && w2 & o != 0 { if w3 != 0 && w3 & o != 0 { if w4 != 0 && w4 & o != 0 { if w5 != 0 && w5 & o != 0 { if w6 != 0 && w6 & o != 0 { if w7 != 0 && w7 & o != 0 { if w8 != 0 && w8 & o != 0 { if w9 & p != 0 { ((((((((0u64 | w1) | w2) | w3) | w4) | w5) | w6) | w7) | w8) } else { 0u64 } } else if w8 & p != 0 { (((((((0u64 | w1) | w2) | w3) | w4) | w5) | w6) | w7) } else { 0u64 } } else if w7 & p != 0 { ((((((0u64 | w1) | w2) | w3) | w4) | w5) | w6) } else { 0u64 } } else if w6 & p != 0 { (((((0u64 | w1) | w2) | w3) | w4) | w5) } else { 0u64 } } else if w5 & p != 0 { ((((0u64 | w1) | w2) | w3) | w4) } else { 0u64 } } else if w4 & p != 0 { (((0u64 | w1) | w2) | w3) } else { 0u64 } } else if w3 & p != 0 { ((0u64 | w1) | w2) } else { 0u64 } } else if w2 & p != 0 { (0u64 | w1) } else { 0u64 } } else if w1 & p != 0 { 0u64 } else { 0u64 };
    assert(dir_flips(p, o, put, 0) == f);
    assert(((((t5 >> 8u64) & !(p | o)) >> i) & 1 == 1) == (((p | o) >> i) & 1 == 0 && f != 0)) by (bit_vector)
        requires
            i < 64,
            p & o == 0,
            m == o & 0x00ffffffffffff00,
            t0 == m & (p >> 8u64),
            t1 == t0 | (m & (t0 >> 8u64)),
            t2 == t1 | (m & (t1 >> 8u64)),
            t3 == t2 | (m & (t2 >> 8u64)),
            t4 == t3 | (m & (t3 >> 8u64)),
            t5 == t4 | (m & (t4 >> 8u64)),
            put == 1u64 << i,
            w1 == (put << 8u64) & 0xffffffffffffff00,
            w2 == (w1 << 8u64) & 0xffffffffffffff00,
            w3 == (w2 << 8u64) & 0xffffffffffffff00,
            w4 == (w3 << 8u64) & 0xffffffffffffff00,
            w5 == (w4 << 8u64) & 0xffffffffffffff00,
            w6 == (w5 << 8u64) & 0xffffffffffffff00,
            w7 == (w6 << 8u64) & 0xffffffffffffff00,
            w8 == (w7 << 8u64) & 0xffffffffffffff00,
            w9 == (w8 << 8u64) & 0xffffffffffffff00,
            f == (if w1 != 0 && w1 & o != 0 { if w2 != 0 && w2 & o != 0 { if w3 != 0 && w3 & o != 0 { if w4 != 0 && w4 & o != 0 { if w5 != 0 && w5 & o != 0 { if w6 != 0 && w6 & o != 0 { if w7 != 0 && w7 & o != 0 { if w8 != 0 && w8 & o != 0 { if w9 & p != 0 { ((((((((0u64 | w1) | w2) | w3) | w4) | w5) | w6) | w7) | w8) } else { 0u64 } } else if w8 & p != 0 { (((((((0u64 | w1) | w2) | w3) | w4) | w5) | w6) | w7) } else { 0u64 } } else if w7 & p != 0 { ((((((0u64 | w1) | w2) | w3) | w4) | w5) | w6) } else { 0u64 } } else if w6 & p != 0 { (((((0u64 | w1) | w2) | w3) | w4) | w5) } else { 0u64 } } else if w5 & p != 0 { ((((0u64 | w1) | w2) | w3) | w4) } else { 0u64 } } else if w4 & p != 0 { (((0u64 | w1) | w2) | w3) } else { 0u64 } } else if w3 & p != 0 { ((0u64 | w1) | w2) } else { 0u64 } } else if w2 & p != 0 { (0u64 | w1) } else { 0u64 } } else if w1 & p != 0 { 0u64 } else { 0u64 }),
    ;
}

proof fn lemma_rule_dir4(p: u64, o: u64, i: u64)
    requires
        i < 64,
        p & o == 0,
    ensures
        ((dir_moves(p, o, 4) >> i) & 1 == 1) == (((p | o) >> i) & 1 == 0 && dir_flips(
            p,
            o,
            1u64 << i,
            3,
        ) != 0),
{
    reveal_with_fuel(sweep, 6);
    reveal_with_fuel(walk, 10);
    let m = o & 0x007e7e7e7e7e7e00;
    let t0 = m & (p << 9u64);
    let t1 = t0 | (m & (t0 << 9u64));
    let t2 = t1 | (m & (t1 << 9u64));
    let t3 = t2 | (m & (t2 << 9u64));
    let t4 = t3 | (m & (t3 << 9u64));
    let t5 = t4 | (m & (t4 << 9u64));
    assert(dir_moves(p, o, 4) == (t5 << 9u64) & !(p | o));
    let put = 1u64 << i;
    let w1 = (put >> 9u64) & 0x007f7f7f7f7f7f7f;
    let w2 = (w1 >> 9u64) & 0x007f7f7f7f7f7f7f;
    let w3 = (w2 >> 9u64) & 0x007f7f7f7f7f7f7f;
    let w4 = (w3 >> 9u64) & 0x007f7f7f7f7f7f7f;
    let w5 = (w4 >> 9u64) & 0x007f7f7f7f7f7f7f;
    let w6 = (w5 >> 9u64) & 0x007f7f7f7f7f7f7f;
    let w7 = (w6 >> 9u64) & 0x007f7f7f7f7f7f7f;
    let w8 = (w7 >> 9u64) & 0x007f7f7f7f7f7f7f;
    let w9 = (w8 >> 9u64) & 0x007f7f7f7f7f7f7f;
    let f = if w1 != 0 && w1 & o != 0 { if w2 != 0 && w2 & o != 0 { if w3 != 0 && w3 & o != 0 { if w4 != 0 && w4 & o != 0 { if w5 != 0 && w5 & o != 0 { if w6 != 0 && w6 & o != 0 { if w7 != 0 && w7 & o != 0 { if w8 != 0 && w8 & o != 0 { if w9 & p != 0 { ((((((((0u64 | w1) | w2) | w3) | w4) | w5) | w6) | w7) | w8) } else { 0u64 } } else if w8 & p != 0 { (((((((0u64 | w1) | w2) | w3) | w4) | w5) | w6) | w7) } else { 0u64 } } else if w7 & p != 0 { ((((((0u64 | w1) | w2) | w3) | w4) | w5) | w6) } else { 0u64 } } else if w6 & p != 0 { (((((0u64 | w1) | w2) | w3) | w4) | w5) } else { 0u64 } } else if w5 & p != 0 { ((((0u64 | w1) | w2) | w3) | w4) } else { 0u64 } } else if w4 & p != 0 { (((0u64 | w1) | w2) | w3) } else { 0u64 } } else if w3 & p != 0 { ((0u64 | w1) | w2) } else { 0u64 } } else if w2 & p != 0 { (0u64 | w1) } else { 0u64 } } else if w1 & p != 0 { 0u64 } else { 0u64 };
    assert(dir_flips(p, o, put, 3) == f);
    assert(((((t5 << 9u64) & !(p | o)) >> i) & 1 == 1) == (((p | o) >> i) & 1 == 0 && f != 0)) by (bit_vector)
        requires
            i < 64,
            p & o == 0,
            m == o & 0x007e7e7e7e7e7e00,
            t0 == m & (p << 9u64),
            t1 == t0 | (m & (t0 << 9u64)),
            t2 == t1 | (m & (t1 << 9u64)),
            t3 == t2 | (m & (t2 << 9u64)),
            t4 == t3 | (m & (t3 << 9u64)),
            t5 == t4 | (m & (t4 << 9u64)),
            put == 1u64 << i,
            w1 == (put >> 9u64) & 0x007f7f7f7f7f7f7f,
            w2 == (w1 >> 9u64) & 0x007f7f7f7f7f7f7f,
            w3 == (w2 >> 9u64) & 0x007f7f7f7f7f7f7f,
            w4 == (w3 >> 9u64) & 0x007f7f7f7f7f7f7f,
            w5 == (w4 >> 9u64) & 0x007f7f7f7f7f7f7f,
            w6 == (w5 >> 9u64) & 0x007f7f7f7f7f7f7f,
            w7 == (w6 >> 9u64) & 0x007f7f7f7f7f7f7f,
            w8 == (w7 >> 9u64) & 0x007f7f7f7f7f7f7f,
            w9 == (w8 >> 9u64) & 0x007f7f7f7f7f7f7f,
            f == (if w1 != 0 && w1 & o != 0 { if w2 != 0 && w2 & o != 0 { if w3 != 0 && w3 & o != 0 { if w4 != 0 && w4 & o != 0 { if w5 != 0 && w5 & o != 0 { if w6 != 0 && w6 & o != 0 { if w7 != 0 && w7 & o != 0 { if w8 != 0 && w8 & o != 0 { if w9 & p != 0 { ((((((((0u64 | w1) | w2) | w3) | w4) | w5) | w6) | w7) | w8) } else { 0u64 } } else if w8 & p != 0 { (((((((0u64 | w1) | w2) | w3) | w4) | w5) | w6) | w7) } else { 0u64 } } else if w7 & p != 0 { ((((((0u64 | w1) | w2) | w3) | w4) | w5) | w6) } else { 0u64 } } else if w6 & p != 0 { (((((0u64 | w1) | w2) | w3) | w4) | w5) } else { 0u64 } } else if w5 & p != 0 { ((((0u64 | w1) | w2) | w3) | w4) } else { 0u64 } } else if w4 & p != 0 { (((0u64 | w1) | w2) | w3) } else { 0u64 } } else if w3 & p != 0 { ((0u64 | w1) | w2) } else { 0u64 } } else if w2 & p != 0 { (0u64 | w1) } else { 0u64 } } else if w1 & p != 0 { 0u64 } else { 0u64 }),
    ;
}

proof fn lemma_rule_dir5(p: u64, o: u64, i: u64)
    requires
        i < 64,
        p & o == 0,
    ensures
        ((dir_moves(p, o, 5) >> i) & 1 == 1) == (((p | o) >> i) & 1 == 0 && dir_flips(
            p,
            o,
            1u64 << i,
            7,
        ) != 0),
{
    reveal_with_fuel(sweep, 6);
    reveal_with_fuel(walk, 10);
    let m = o & 0x007e7e7e7e7e7e00;
    let t0 = m & (p >> 9u64);
    let t1 = t0 | (m & (t0 >> 9u64));
    let t2 = t1 | (m & (t1 >> 9u64));
    let t3 = t2 | (m & (t2 >> 9u64));
    let t4 = t3 | (m & (t3 >> 9u64));
    let t5 = t4 | (m & (t4 >> 9u64));
    assert(dir_moves(p, o, 5) == (t5 >> 9u64) & !(p | o));
    let put = 1u64 << i;
    let w1 = (put << 9u64) & 0xfefefefefefefe00;
    let w2 = (w1 << 9u64) & 0xfefefefefefefe00;
    let w3 = (w2 << 9u64) & 0xfefefefefefefe00;
    let w4 = (w3 << 9u64) & 0xfefefefefefefe00;
    let w5 = (w4 << 9u64) & 0xfefefefefefefe00;
    let w6 = (w5 << 9u64) & 0xfefefefefefefe00;
    let w7 = (w6 << 9u64) & 0xfefefefefefefe00;
    let w8 = (w7 << 9u64) & 0xfefefefefefefe00;
    let w9 = (w8 << 9u64) & 0xfefefefefefefe00;
    let f = if w1 != 0 && w1 & o != 0 { if w2 != 0 && w2 & o != 0 { if w3 != 0 && w3 & o != 0 { if w4 != 0 && w4 & o != 0 { if w5 != 0 && w5 & o != 0 { if w6 != 0 && w6 & o != 0 { if w7 != 0 && w7 & o != 0 { if w8 != 0 && w8 & o != 0 { if w9 & p != 0 { ((((((((0u64 | w1) | w2) | w3) | w4) | w5) | w6) | w7) | w8) } else { 0u64 } } else if w8 & p != 0 { (((((((0u64 | w1) | w2) | w3) | w4) | w5) | w6) | w7) } else { 0u64 } } else if w7 & p != 0 { ((((((0u64 | w1) | w2) | w3) | w4) | w5) | w6) } else { 0u64 } } else if w6 & p != 0 { (((((0u64 | w1) | w2) | w3) | w4) | w5) } else { 0u64 } } else if w5 & p != 0 { ((((0u64 | w1) | w2) | w3) | w4) } else { 0u64 } } else if w4 & p != 0 { (((0u64 | w1) | w2) | w3) } else { 0u64 } } else if w3 & p != 0 { ((0u64 | w1) | w2) } else { 0u64 } } else if w2 & p != 0 { (0u64 | w1) } else { 0u64 } } else if w1 & p != 0 { 0u64 } else { 0u64 };
    assert(dir_flips(p, o, put, 7) == f);
    assert(((((t5 >> 9u64) & !(p | o)) >> i) & 1 == 1) == (((p | o) >> i) & 1 == 0 && f != 0)) by (bit_vector)
        requires
            i < 64,
            p & o == 0,
            m == o & 0x007e7e7e7e7e7e00,
            t0 == m & (p >> 9u64),
            t1 == t0 | (m & (t0 >> 9u64)),
            t2 == t1 | (m & (t1 >> 9u64)),
            t3 == t2 | (m & (t2 >> 9u64)),
            t4 == t3 | (m & (t3 >> 9u64)),
            t5 == t4 | (m & (t4 >> 9u64)),
            put == 1u64 << i,
            w1 == (put << 9u64) & 0xfefefefefefefe00,
            w2 == (w1 << 9u64) & 0xfefefefefefefe00,
            w3 == (w2 << 9u64) & 0xfefefefefefefe00,
            w4 == (w3 << 9u64) & 0xfefefefefefefe00,
            w5 == (w4 << 9u64) & 0xfefefefefefefe00,
            w6 == (w5 << 9u64) & 0xfefefefefefefe00,
            w7 == (w6 << 9u64) & 0xfefefefefefefe00,
            w8 == (w7 << 9u64) & 0xfefefefefefefe00,
            w9 == (w8 << 9u64) & 0xfefefefefefefe00,
            f == (if w1 != 0 && w1 & o != 0 { if w2 != 0 && w2 & o != 0 { if w3 != 0 && w3 & o != 0 { if w4 != 0 && w4 & o != 0 { if w5 != 0 && w5 & o != 0 { if w6 != 0 && w6 & o != 0 { if w7 != 0 && w7 & o != 0 { if w8 != 0 && w8 & o != 0 { if w9 & p != 0 { ((((((((0u64 | w1) | w2) | w3) | w4) | w5) | w6) | w7) | w8) } else { 0u64 } } else if w8 & p != 0 { (((((((0u64 | w1) | w2) | w3) | w4) | w5) | w6) | w7) } else { 0u64 } } else if w7 & p != 0 { ((((((0u64 | w1) | w2) | w3) | w4) | w5) | w6) } else { 0u64 } } else if w6 & p != 0 { (((((0u64 | w1) | w2) | w3) | w4) | w5) } else { 0u64 } } else if w5 & p != 0 { ((((0u64 | w1) | w2) | w3) | w4) } else { 0u64 } } else if w4 & p != 0 { (((0u64 | w1) | w2) | w3) } else { 0u64 } } else if w3 & p != 0 { ((0u64 | w1) | w2) } else { 0u64 } } else if w2 & p != 0 { (0u64 | w1) } else { 0u64 } } else if w1 & p != 0 { 0u64 } else { 0u64 }),
    ;
}

proof fn lemma_rule_dir6(p: u64, o: u64, i: u64)
    requires
        i < 64,
        p & o == 0,
    ensures
        ((dir_moves(p, o, 6) >> i) & 1 == 1) == (((p | o) >> i) & 1 == 0 && dir_flips(
            p,
            o,
            1u64 << i,
            5,
        ) != 0),
{
    reveal_with_fuel(sweep, 6);
    reveal_with_fuel(walk, 10);
    let m = o & 0x007e7e7e7e7e7e00;
    let t0 = m & (p << 7u64);
    let t1 = t0 | (m & (t0 << 7u64));
    let t2 = t1 | (m & (t1 << 7u64));
    let t3 = t2 | (m & (t2 << 7u64));
    let t4 = t3 | (m & (t3 << 7u64));
    let t5 = t4 | (m & (t4 << 7u64));
    assert(dir_moves(p, o, 6) == (t5 << 7u64) & !(p | o));
    let put = 1u64 << i;
    let w1 = (put >> 7u64) & 0x00fefefefefefefe;
    let w2 = (w1 >> 7u64) & 0x00fefefefefefefe;
    let w3 = (w2 >> 7u64) & 0x00fefefefefefefe;
    let w4 = (w3 >> 7u64) & 0x00fefefefefefefe;
    let w5 = (w4 >> 7u64) & 0x00fefefefefefefe;
    let w6 = (w5 >> 7u64) & 0x00fefefefefefefe;
    let w7 = (w6 >> 7u64) & 0x00fefefefefefefe;
    let w8 = (w7 >> 7u64) & 0x00fefefefefefefe;
    let w9 = (w8 >> 7u64) & 0x00fefefefefefefe;
    let f = if w1 != 0 && w1 & o != 0 { if w2 != 0 && w2 & o != 0 { if w3 != 0 && w3 & o != 0 { if w4 != 0 && w4 & o != 0 { if w5 != 0 && w5 & o != 0 { if w6 != 0 && w6 & o != 0 { if w7 != 0 && w7 & o != 0 { if w8 != 0 && w8 & o != 0 { if w9 & p != 0 { ((((((((0u64 | w1) | w2) | w3) | w4) | w5) | w6) | w7) | w8) } else { 0u64 } } else if w8 & p != 0 { (((((((0u64 | w1) | w2) | w3) | w4) | w5) | w6) | w7) } else { 0u64 } } else if w7 & p != 0 { ((((((0u64 | w1) | w2) | w3) | w4) | w5) | w6) } else { 0u64 } } else if w6 & p != 0 { (((((0u64 | w1) | w2) | w3) | w4) | w5) } else { 0u64 } } else if w5 & p != 0 { ((((0u64 | w1) | w2) | w3) | w4) } else { 0u64 } } else if w4 & p != 0 { (((0u64 | w1) | w2) | w3) } else { 0u64 } } else if w3 & p != 0 { ((0u64 | w1) | w2) } else { 0u64 } } else if w2 & p != 0 { (0u64 | w1) } else { 0u64 } } else if w1 & p != 0 { 0u64 } else { 0u64 };
    assert(dir_flips(p, o, put, 5) == f);
    assert(((((t5 << 7u64) & !(p | o)) >> i) & 1 == 1) == (((p | o) >> i) & 1 == 0 && f != 0)) by (bit_vector)
        requires
            i < 64,
            p & o == 0,
            m == o & 0x007e7e7e7e7e7e00,
            t0 == m & (p << 7u64),
            t1 == t0 | (m & (t0 << 7u64)),
            t2 == t1 | (m & (t1 << 7u64)),
            t3 == t2 | (m & (t2 << 7u64)),
            t4 == t3 | (m & (t3 << 7u64)),
            t5 == t4 | (m & (t4 << 7u64)),
            put == 1u64 << i,
            w1 == (put >> 7u64) & 0x00fefefefefefefe,
            w2 == (w1 >> 7u64) & 0x00fefefefefefefe,
            w3 == (w2 >> 7u64) & 0x00fefefefefefefe,
            w4 == (w3 >> 7u64) & 0x00fefefefefefefe,
            w5 == (w4 >> 7u64) & 0x00fefefefefefefe,
            w6 == (w5 >> 7u64) & 0x00fefefefefefefe,
            w7 == (w6 >> 7u64) & 0x00fefefefefefefe,
            w8 == (w7 >> 7u64) & 0x00fefefefefefefe,
            w9 == (w8 >> 7u64) & 0x00fefefefefefefe,
            f == (if w1 != 0 && w1 & o != 0 { if w2 != 0 && w2 & o != 0 { if w3 != 0 && w3 & o != 0 { if w4 != 0 && w4 & o != 0 { if w5 != 0 && w5 & o != 0 { if w6 != 0 && w6 & o != 0 { if w7 != 0 && w7 & o != 0 { if w8 != 0 && w8 & o != 0 { if w9 & p != 0 { ((((((((0u64 | w1) | w2) | w3) | w4) | w5) | w6) | w7) | w8) } else { 0u64 } } else if w8 & p != 0 { (((((((0u64 | w1) | w2) | w3) | w4) | w5) | w6) | w7) } else { 0u64 } } else if w7 & p != 0 { ((((((0u64 | w1) | w2) | w3) | w4) | w5) | w6) } else { 0u64 } } else if w6 & p != 0 { (((((0u64 | w1) | w2) | w3) | w4) | w5) } else { 0u64 } } else if w5 & p != 0 { ((((0u64 | w1) | w2) | w3) | w4) } else { 0u64 } } else if w4 & p != 0 { (((0u64 | w1) | w2) | w3) } else { 0u64 } } else if w3 & p != 0 { ((0u64 | w1) | w2) } else { 0u64 } } else if w2 & p != 0 { (0u64 | w1) } else { 0u64 } } else if w1 & p != 0 { 0u64 } else { 0u64 }),
    ;
}

proof fn lemma_rule_dir7(p: u64, o: u64, i: u64)
    requires
        i < 64,
        p & o == 0,
    ensures
        ((dir_moves(p, o, 7) >> i) & 1 == 1) == (((p | o) >> i) & 1 == 0 && dir_flips(
            p,
            o,
            1u64 << i,
            1,
        ) != 0),
{
    reveal_with_fuel(sweep, 6);
    reveal_with_fuel(walk, 10);
    let m = o & 0x007e7e7e7e7e7e00;
    let t0 = m & (p >> 7u64);
    let t1 = t0 | (m & (t0 >> 7u64));
    let t2 = t1 | (m & (t1 >> 7u64));
    let t3 = t2 | (m & (t2 >> 7u64));
    let t4 = t3 | (m & (t3 >> 7u64));
    let t5 = t4 | (m & (t4 >> 7u64));
    assert(dir_moves(p, o, 7) == (t5 >> 7u64) & !(p | o));
    let put = 1u64 << i;
    let w1 = (put << 7u64) & 0x7f7f7f7f7f7f7f00;
    let w2 = (w1 << 7u64) & 0x7f7f7f7f7f7f7f00;
    let w3 = (w2 << 7u64) & 0x7f7f7f7f7f7f7f00;
    let w4 = (w3 << 7u64) & 0x7f7f7f7f7f7f7f00;
    let w5 = (w4 << 7u64) & 0x7f7f7f7f7f7f7f00;
    let w6 = (w5 << 7u64) & 0x7f7f7f7f7f7f7f00;
    let w7 = (w6 << 7u64) & 0x7f7f7f7f7f7f7f00;
    let w8 = (w7 << 7u64) & 0x7f7f7f7f7f7f7f00;
    let w9 = (w8 << 7u64) & 0x7f7f7f7f7f7f7f00;
    let f = if w1 != 0 && w1 & o != 0 { if w2 != 0 && w2 & o != 0 { if w3 != 0 && w3 & o != 0 { if w4 != 0 && w4 & o != 0 { if w5 != 0 && w5 & o != 0 { if w6 != 0 && w6 & o != 0 { if w7 != 0 && w7 & o != 0 { if w8 != 0 && w8 & o != 0 { if w9 & p != 0 { ((((((((0u64 | w1) | w2) | w3) | w4) | w5) | w6) | w7) | w8) } else { 0u64 } } else if w8 & p != 0 { (((((((0u64 | w1) | w2) | w3) | w4) | w5) | w6) | w7) } else { 0u64 } } else if w7 & p != 0 { ((((((0u64 | w1) | w2) | w3) | w4) | w5) | w6) } else { 0u64 } } else if w6 & p != 0 { (((((0u64 | w1) | w2) | w3) | w4) | w5) } else { 0u64 } } else if w5 & p != 0 { ((((0u64 | w1) | w2) | w3) | w4) } else { 0u64 } } else if w4 & p != 0 { (((0u64 | w1) | w2) | w3) } else { 0u64 } } else if w3 & p != 0 { ((0u64 | w1) | w2) } else { 0u64 } } else if w2 & p != 0 { (0u64 | w1) } else { 0u64 } } else if w1 & p != 0 { 0u64 } else { 0u64 };
    assert(dir_flips(p, o, put, 1) == f);
    assert(((((t5 >> 7u64) & !(p | o)) >> i) & 1 == 1) == (((p | o) >> i) & 1 == 0 && f != 0)) by (bit_vector)
        requires
            i < 64,
            p & o == 0,
            m == o & 0x007e7e7e7e7e7e00,
            t0 == m & (p >> 7u64),
            t1 == t0 | (m & (t0 >> 7u64)),
            t2 == t1 | (m & (t1 >> 7u64)),
            t3 == t2 | (m & (t2 >> 7u64)),
            t4 == t3 | (m & (t3 >> 7u64)),
            t5 == t4 | (m & (t4 >> 7u64)),
            put == 1u64 << i,
            w1 == (put << 7u64) & 0x7f7f7f7f7f7f7f00,
            w2 == (w1 << 7u64) & 0x7f7f7f7f7f7f7f00,
            w3 == (w2 << 7u64) & 0x7f7f7f7f7f7f7f00,
            w4 == (w3 << 7u64) & 0x7f7f7f7f7f7f7f00,
            w5 == (w4 << 7u64) & 0x7f7f7f7f7f7f7f00,
            w6 == (w5 << 7u64) & 0x7f7f7f7f7f7f7f00,
            w7 == (w6 << 7u64) & 0x7f7f7f7f7f7f7f00,
            w8 == (w7 << 7u64) & 0x7f7f7f7f7f7f7f00,
            w9 == (w8 << 7u64) & 0x7f7f7f7f7f7f7f00,
            f == (if w1 != 0 && w1 & o != 0 { if w2 != 0 && w2 & o != 0 { if w3 != 0 && w3 & o != 0 { if w4 != 0 && w4 & o != 0 { if w5 != 0 && w5 & o != 0 { if w6 != 0 && w6 & o != 0 { if w7 != 0 && w7 & o != 0 { if w8 != 0 && w8 & o != 0 { if w9 & p != 0 { ((((((((0u64 | w1) | w2) | w3) | w4) | w5) | w6) | w7) | w8) } else { 0u64 } } else if w8 & p != 0 { (((((((0u64 | w1) | w2) | w3) | w4) | w5) | w6) | w7) } else { 0u64 } } else if w7 & p != 0 { ((((((0u64 | w1) | w2) | w3) | w4) | w5) | w6) } else { 0u64 } } else if w6 & p != 0 { (((((0u64 | w1) | w2) | w3) | w4) | w5) } else { 0u64 } } else if w5 & p != 0 { ((((0u64 | w1) | w2) | w3) | w4) } else { 0u64 } } else if w4 & p != 0 { (((0u64 | w1) | w2) | w3) } else { 0u64 } } else if w3 & p != 0 { ((0u64 | w1) | w2) } else { 0u64 } } else if w2 & p != 0 { (0u64 | w1) } else { 0u64 } } else if w1 & p != 0 { 0u64 } else { 0u64 }),
    ;
}

/// A square is legal exactly when it is empty and playing it there flips
/// at least one stone: the directional sweeps agree with the walks of a
/// move.
pub proof fn law_legal_iff_flips(b: Board, c: Color, i: u64)
    requires
        b.wf(),
        i < 64,
    ensures
        is_set(b.legal(c), i as int) == ((b.occupied() >> i) & 1 == 0 && flips(
            b.mine(c),
            b.theirs(c),
            1u64 << i,
        ) != 0),
{
    let p = b.mine(c);
    let o = b.theirs(c);
    let bl = b.black;
    let w = b.white;
    assert(p & o == 0 && p | o == bl | w) by (bit_vector)
        requires
            (p == bl && o == w) || (p == w && o == bl),
            bl & w == 0,
    ;
    lemma_rule_dir0(p, o, i);
    lemma_rule_dir1(p, o, i);
    lemma_rule_dir2(p, o, i);
    lemma_rule_dir3(p, o, i);
    lemma_rule_dir4(p, o, i);
    lemma_rule_dir5(p, o, i);
    lemma_rule_dir6(p, o, i);
    lemma_rule_dir7(p, o, i);
    let put = 1u64 << i;
    let d0 = dir_moves(p, o, 0);
    let d1 = dir_moves(p, o, 1);
    let d2 = dir_moves(p, o, 2);
    let d3 = dir_moves(p, o, 3);
    let d4 = dir_moves(p, o, 4);
    let d5 = dir_moves(p, o, 5);
    let d6 = dir_moves(p, o, 6);
    let d7 = dir_moves(p, o, 7);
    let f0 = dir_flips(p, o, put, 0);
    let f1 = dir_flips(p, o, put, 1);
    let f2 = dir_flips(p, o, put, 2);
    let f3 = dir_flips(p, o, put, 3);
    let f4 = dir_flips(p, o, put, 4);
    let f5 = dir_flips(p, o, put, 5);
    let f6 = dir_flips(p, o, put, 6);
    let f7 = dir_flips(p, o, put, 7);
    reveal_with_fuel(flips_upto, 9);
    assert(flips(p, o, put) == (((((((0u64 | f0) | f1) | f2) | f3) | f4) | f5) | f6) | f7);
    let lg = legal_mask(p, o);
    let fl = flips(p, o, put);
    let q = p | o;
    assert(((lg >> i) & 1 == 1) == ((q >> i) & 1 == 0 && fl != 0)) by (bit_vector)
        requires
            i < 64,
            lg == d0 | d1 | d2 | d3 | d4 | d5 | d6 | d7,
            fl == (((((((0u64 | f0) | f1) | f2) | f3) | f4) | f5) | f6) | f7,
            ((d0 >> i) & 1 == 1) == ((q >> i) & 1 == 0 && f2 != 0),
            ((d1 >> i) & 1 == 1) == ((q >> i) & 1 == 0 && f6 != 0),
            ((d2 >> i) & 1 == 1) == ((q >> i) & 1 == 0 && f4 != 0),
            ((d3 >> i) & 1 == 1) == ((q >> i) & 1 == 0 && f0 != 0),
            ((d4 >> i) & 1 == 1) == ((q >> i) & 1 == 0 && f3 != 0),
            ((d5 >> i) & 1 == 1) == ((q >> i) & 1 == 0 && f7 != 0),
            ((d6 >> i) & 1 == 1) == ((q >> i) & 1 == 0 && f5 != 0),
            ((d7 >> i) & 1 == 1) == ((q >> i) & 1 == 0 && f1 != 0),
    ;
}

/// The stones that a move flips are opponent stones, and they are exactly
/// the opponent stones that the move turns over.
pub proof fn law_flips_are_opponent_stones(b: Board, m: Move, c: Color)
    requires
        m matches Move::Mv { x_ah, y_18 } ==> on_board(x_ah, y_18),
    ensures
        b.flip_mask(m, c) & !b.theirs(c) == 0,
        b.apply(m, c).theirs(c) ^ b.theirs(c) == b.flip_mask(m, c),
{
    let o = b.theirs(c);
    let f = b.flip_mask(m, c);
    if let Move::Mv { x_ah, y_18 } = m {
        lemma_square_bit(x_ah, y_18);
        lemma_flips_within(b.mine(c), o, square_bit(x_ah, y_18), 8);
        assert((o ^ f) ^ o == f) by (bit_vector);
    } else {
        assert(0u64 & !o == 0 && o ^ o == 0) by (bit_vector);
    }
}

proof fn lemma_pop_union(x: u64, y: u64, n: nat)
    requires
        x & y == 0,
        n <= 64,
    ensures
        pop_below(x | y, n) == pop_below(x, n) + pop_below(y, n),
    decreases n,
{
    if n > 0 {
        lemma_pop_union(x, y, (n - 1) as nat);
        let i = (n - 1) as u64;
        assert((((x | y) >> i) & 1 == 1) == ((x >> i) & 1 == 1 || (y >> i) & 1 == 1) && !((x
            >> i) & 1 == 1 && (y >> i) & 1 == 1)) by (bit_vector)
            requires
                x & y == 0,
                i < 64,
        ;
    }
}

proof fn lemma_pop_single(k: u64, n: nat)
    requires
        k < 64,
        n <= 64,
    ensures
        pop_below(1u64 << k, n) == if n > k { 1nat } else { 0nat },
    decreases n,
{
    if n > 0 {
        lemma_pop_single(k, (n - 1) as nat);
        let i = (n - 1) as u64;
        assert((((1u64 << k) >> i) & 1 == 1) == (i == k)) by (bit_vector)
            requires
                k < 64,
                i < 64,
        ;
    }
}

/// Playing a legal square adds exactly one stone to the board.
pub proof fn law_legal_move_adds_one_stone(b: Board, c: Color, k: int)
    requires
        b.wf(),
        0 <= k < b.moves(c).len(),
    ensures
        b.apply(move_of(b.moves(c)[k]), c).stone_sum() == b.stone_sum() + 1,
{
    lemma_legal_move_places(b, c, k);
    let pos = b.moves(c)[k];
    let m = move_of(pos);
    let x = pos.0 as u32;
    let y = pos.1 as u32;
    let p = b.mine(c);
    let o = b.theirs(c);
    let bl = b.black;
    let w = b.white;
    let s = square_bit(x, y);
    let f = b.flip_mask(m, c);
    law_flips_are_opponent_stones(b, m, c);
    let kk = ((x - 1) * 8 + y - 1) as u64;
    assert(s == 1u64 << kk);
    lemma_pop_single(kk, 64);
    assert(p & o == 0 && p | o == bl | w) by (bit_vector)
        requires
            (p == bl && o == w) || (p == w && o == bl),
            bl & w == 0,
    ;
    let np = p ^ (s | f);
    let no = o ^ f;
    let ps = p | s;
    assert(p & s == 0 && ps & f == 0 && np == ps | f && no & f == 0 && o == no | f) by (bit_vector)
        requires
            p & o == 0,
            s & (p | o) == 0,
            f & !o == 0,
            np == p ^ (s | f),
            no == o ^ f,
            ps == p | s,
    ;
    lemma_pop_union(p, s, 64);
    lemma_pop_union(ps, f, 64);
    lemma_pop_union(no, f, 64);
}

// ---------------------------------------------------------------------------
// Laws of the board.

proof fn lemma_pos_of_injective(i: int, j: int)
    requires
        0 <= i < 64,
        0 <= j < 64,
        pos_of(i) == pos_of(j),
    ensures
        i == j,
{
    assert(i == 8 * (i / 8) + i % 8);
    assert(j == 8 * (j / 8) + j % 8);
}

proof fn lemma_mask_positions(x: u64, n: nat)
    requires
        n <= 64,
    ensures
        forall|i: int|
            0 <= i < 64 ==> (#[trigger] mask_positions(x, n).contains(pos_of(i)) <==> (i < n
                && is_set(x, i))),
        forall|k: int|
            0 <= k < mask_positions(x, n).len() ==> {
                let i = bit_index(#[trigger] mask_positions(x, n)[k]);
                0 <= i < n && is_set(x, i) && mask_positions(x, n)[k] == pos_of(i)
            },
    decreases n,
{
    if n > 0 {
        let m = (n - 1) as nat;
        lemma_mask_positions(x, m);
        let s = mask_positions(x, m);
        assert forall|i: int| 0 <= i < 64 implies (#[trigger] mask_positions(x, n).contains(
            pos_of(i),
        ) <==> (i < n && is_set(x, i))) by {
            if is_set(x, n - 1) {
                assert(mask_positions(x, n) == s.push(pos_of(n - 1)));
                if mask_positions(x, n).contains(pos_of(i)) {
                    let k = choose|k: int|
                        0 <= k < mask_positions(x, n).len() && mask_positions(x, n)[k] == pos_of(
                            i,
                        );
                    if k < s.len() {
                        assert(s[k] == pos_of(i));
                        assert(s.contains(pos_of(i)));
                    } else {
                        lemma_pos_of_injective(i, n - 1);
                    }
                }
                if i == n - 1 {
                    assert(mask_positions(x, n)[s.len() as int] == pos_of(i));
                } else if i < n - 1 && is_set(x, i) {
                    assert(s.contains(pos_of(i)));
                    let k = choose|k: int| 0 <= k < s.len() && s[k] == pos_of(i);
                    assert(mask_positions(x, n)[k] == pos_of(i));
                }
            } else {
                if i == n - 1 && s.contains(pos_of(i)) {
                    assert(false);
                }
            }
        }
        assert forall|k: int| 0 <= k < mask_positions(x, n).len() implies {
            let i = bit_index(#[trigger] mask_positions(x, n)[k]);
            0 <= i < n && is_set(x, i) && mask_positions(x, n)[k] == pos_of(i)
        } by {
            if is_set(x, n - 1) && k == s.len() {
                assert(mask_positions(x, n)[k] == pos_of(n - 1));
                assert(bit_index(pos_of(n - 1)) == n - 1);
            } else {
                assert(mask_positions(x, n)[k] == s[k]);
            }
        }
    }
}

/// The legal-move list holds exactly the squares of the set bits of the
/// legal-move mask: a square is listed iff its bit is set, and every listed
/// square comes from a set bit.
pub proof fn law_moves_are_mask_bits(b: Board, c: Color)
    ensures
        forall|i: int|
            0 <= i < 64 ==> (#[trigger] b.moves(c).contains(pos_of(i)) <==> is_set(b.legal(c), i)),
        forall|k: int|
            0 <= k < b.moves(c).len() ==> {
                let i = bit_index(#[trigger] b.moves(c)[k]);
                0 <= i < 64 && is_set(b.legal(c), i) && b.moves(c)[k] == pos_of(i)
            },
{
    lemma_mask_positions(b.legal(c), 64);
}

/// The mobility difference of one side is the negation of the other's.
pub proof fn law_mobility_antisymmetric(b: Board, c: Color)
    requires
        is_player(c),
    ensures
        b.mobility_diff(c) == -b.mobility_diff(opposite_of(c)),
{
}

/// The terminal signs of the two sides cancel.
pub proof fn law_terminal_signs_cancel(b: Board, c: Color)
    requires
        is_player(c),
    ensures
        b.wol(c) + b.wol(opposite_of(c)) == 0,
{
}

/// Undoing a move with the stones that it flipped gives back the board.
pub proof fn law_undo_restores(b: Board, m: Move, c: Color)
    ensures
        b.apply(m, c).undo(m, c, b.flip_mask(m, c)) == b,
{
    if let Move::Mv { x_ah, y_18 } = m {
        let p = b.mine(c);
        let o = b.theirs(c);
        let s = square_bit(x_ah, y_18);
        let f = b.flip_mask(m, c);
        assert((p ^ (s | f)) ^ (s | f) == p && (o ^ f) ^ f == o) by (bit_vector);
    }
}

} // verus!
