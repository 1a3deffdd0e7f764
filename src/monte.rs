use vstd::prelude::*;
use crate::bit_othello::{
    Board, Pos, move_of, lemma_legal_move_places, lemma_move_of_valid, lemma_pop_below_bound,
    law_legal_move_adds_one_stone,
    corners_of, get_corner_list,
};
use crate::proto::{Color, Move, opposite_of, is_player};
use crate::depth_first_search::{vacancy, time_is_up};
use std::time::Instant;

verus! {

// ---------------------------------------------------------------------------
// Chance.

/// Relies on rand's `Rng::gen_ratio` on the thread's generator: `true`
/// with probability `numerator / denominator`; never when the numerator is
/// 0, always when it equals the denominator. It panics on a zero
/// denominator or a numerator above it, which `requires` leaves out.
#[verifier::external_body]
fn random_ratio(numerator: u32, denominator: u32) -> (r: bool)
    requires
        0 < denominator,
        numerator <= denominator,
    ensures
        numerator == 0 ==> !r,
        numerator == denominator ==> r,
{
    rand::Rng::gen_ratio(&mut rand::thread_rng(), numerator, denominator)
}

/// Relies on rand's `Rng::gen_range` over `0..n` on the thread's generator:
/// a number below `n`. It panics on an empty range, which `requires` leaves
/// out.
#[verifier::external_body]
fn random_below(n: usize) -> (r: usize)
    requires
        0 < n,
    ensures
        r < n,
{
    rand::Rng::gen_range(&mut rand::thread_rng(), 0..n)
}

// ---------------------------------------------------------------------------
// Rollouts.

/// Mobility difference for `c` after playing square `p`.
pub open spec fn mobility_after(b: Board, c: Color, p: Pos) -> int {
    b.apply(move_of(p), c).mobility_diff(c)
}

/// `k` is the first of the legal squares with the greatest mobility
/// difference after it is played.
pub open spec fn is_first_best(b: Board, c: Color, k: int) -> bool {
    let ms = b.moves(c);
    &&& 0 <= k < ms.len()
    &&& forall|j: int| 0 <= j < ms.len() ==> mobility_after(b, c, ms[j]) <= mobility_after(b, c, ms[k])
    &&& forall|j: int| 0 <= j < k ==> mobility_after(b, c, ms[j]) < mobility_after(b, c, ms[k])
}

/// The legal square that leaves `color` the greatest mobility difference;
/// the first of them on a tie.
pub fn speedy_decide(board: &Board, color: Color) -> (r: Pos)
    requires
        board.wf(),
        board.moves(color).len() > 0,
    ensures
        exists|k: int| is_first_best(*board, color, k) && r == board.moves(color)[k],
{
    let canput = board.valid_moves(color);
    let mut max_score: i32 = -1000;
    let mut max_score_index: usize = 0;
    let mut i: usize = 0;
    while i < canput.len()
        invariant
            i <= canput@.len(),
            canput@ == board.moves(color),
            board.wf(),
            canput@.len() > 0,
            i == 0 ==> max_score == -1000 && max_score_index == 0,
            i > 0 ==> max_score_index < i && max_score == mobility_after(
                *board,
                color,
                canput@[max_score_index as int],
            ),
            forall|j: int|
                0 <= j < i ==> mobility_after(*board, color, canput@[j]) <= max_score,
            forall|j: int|
                0 <= j < max_score_index ==> mobility_after(*board, color, canput@[j])
                    < max_score,
        decreases canput@.len() - i,
    {
        let pos = canput[i];
        proof {
            lemma_legal_move_places(*board, color, i as int);
            lemma_move_of_valid(*board, color, i as int);
        }
        let mut child = *board;
        let m = Move::Mv { x_ah: pos.0 as u32, y_18: pos.1 as u32 };
        child.do_move(m, color);
        let score = child.canput_diff(color);
        proof {
            lemma_mobility_bound(child, color);
        }
        if score > max_score {
            max_score = score;
            max_score_index = i;
        }
        i = i + 1;
    }
    assert(is_first_best(*board, color, max_score_index as int));
    canput[max_score_index]
}

proof fn lemma_mobility_bound(b: Board, c: Color)
    ensures
        b.mobility_diff(c) >= -128,
{
    lemma_pop_below_bound(b.legal(Color::Black), 64);
    lemma_pop_below_bound(b.legal(Color::White), 64);
}

proof fn lemma_corners_within(s: Seq<Pos>)
    ensures
        forall|k: int|
            0 <= k < corners_of(s).len() ==> s.contains(#[trigger] corners_of(s)[k]),
    decreases s.len(),
{
    if s.len() > 0 {
        lemma_corners_within(s.drop_last());
        let c = corners_of(s);
        let r = corners_of(s.drop_last());
        assert forall|k: int| 0 <= k < c.len() implies s.contains(#[trigger] c[k]) by {
            if k < r.len() {
                assert(c[k] == r[k]);
                let j = choose|j: int| 0 <= j < s.drop_last().len() && s.drop_last()[j] == r[k];
                assert(s[j] == r[k]);
            } else {
                assert(c[k] == s.last());
                assert(s[s.len() - 1] == s.last());
            }
        }
    }
}

/// `r` is a final board of some legal play from `b` with `c` to move: a
/// side without a legal square passes, and the game ends when neither side
/// has one.
pub open spec fn reaches(b: Board, c: Color, r: Board) -> bool
    decreases vacancy(b), if b.moves(c).len() == 0 { 1nat } else { 0nat },
{
    if b.is_terminal() {
        r == b
    } else if b.moves(c).len() == 0 {
        is_player(c) && b.moves(opposite_of(c)).len() > 0 && reaches(b, opposite_of(c), r)
    } else {
        exists|k: int|
            0 <= k < b.moves(c).len() && vacancy(#[trigger] b.apply(move_of(b.moves(c)[k]), c))
                < vacancy(b) && reaches(b.apply(move_of(b.moves(c)[k]), c), opposite_of(c), r)
    }
}

/// The first legal square that leaves the mover the greatest mobility
/// difference (the square of `speedy_decide`).
pub open spec fn first_best(b: Board, c: Color) -> int {
    choose|k: int| is_first_best(b, c, k)
}

/// The rollout policy's square for `c` on `b`, given its draws: the only
/// legal square; else, when a corner is legal and `corner_draw` (drawn with
/// probability 3/5), corner number `corner_index`; else, when `speedy_draw`
/// (drawn with probability 3/5), the square of `speedy_decide`; else legal
/// square number `move_index`.
pub open spec fn rollout_choice(
    b: Board,
    c: Color,
    corner_draw: bool,
    corner_index: int,
    speedy_draw: bool,
    move_index: int,
) -> Pos {
    let ms = b.moves(c);
    let cs = corners_of(ms);
    if ms.len() == 1 {
        ms[0]
    } else if cs.len() > 0 && corner_draw {
        cs[corner_index]
    } else if speedy_draw {
        ms[first_best(b, c)]
    } else {
        ms[move_index]
    }
}

/// The draws that `rollout_choice` can be given: indexes within range.
pub open spec fn draws_ok(
    b: Board,
    c: Color,
    corner_draw: bool,
    corner_index: int,
    speedy_draw: bool,
    move_index: int,
) -> bool {
    &&& (b.moves(c).len() > 1 && corners_of(b.moves(c)).len() > 0 && corner_draw) ==> 0
        <= corner_index < corners_of(b.moves(c)).len()
    &&& 0 <= move_index < b.moves(c).len()
}

proof fn lemma_first_best_unique(b: Board, c: Color, k: int)
    requires
        is_first_best(b, c, k),
    ensures
        first_best(b, c) == k,
{
    let j = first_best(b, c);
    assert(is_first_best(b, c, j));
    let ms = b.moves(c);
    if j < k {
        assert(mobility_after(b, c, ms[j]) < mobility_after(b, c, ms[k]));
    } else if k < j {
        assert(mobility_after(b, c, ms[k]) < mobility_after(b, c, ms[j]));
    }
}

proof fn lemma_rollout_choice_legal(
    b: Board,
    c: Color,
    corner_draw: bool,
    corner_index: int,
    speedy_draw: bool,
    move_index: int,
)
    requires
        b.moves(c).len() > 0,
        draws_ok(b, c, corner_draw, corner_index, speedy_draw, move_index),
        speedy_draw && !(corners_of(b.moves(c)).len() > 0 && corner_draw) && b.moves(c).len() > 1
            ==> is_first_best(b, c, first_best(b, c)),
    ensures
        b.moves(c).contains(rollout_choice(b, c, corner_draw, corner_index, speedy_draw, move_index)),
{
    let ms = b.moves(c);
    lemma_corners_within(ms);
    let r = rollout_choice(b, c, corner_draw, corner_index, speedy_draw, move_index);
    if ms.len() == 1 {
        assert(ms[0] == r);
    } else if corners_of(ms).len() > 0 && corner_draw {
        assert(ms.contains(corners_of(ms)[corner_index]));
    } else if speedy_draw {
        assert(ms[first_best(b, c)] == r);
    } else {
        assert(ms[move_index] == r);
    }
}

/// The rollout policy's square, given its draws (see `rollout_choice`).
pub fn rollout_pick(
    board: &Board,
    color: Color,
    moves: &Vec<Pos>,
    corners: &Vec<Pos>,
    corner_draw: bool,
    corner_index: usize,
    speedy_draw: bool,
    move_index: usize,
) -> (r: Pos)
    requires
        board.wf(),
        moves@ == board.moves(color),
        corners@ == corners_of(moves@),
        moves@.len() > 0,
        draws_ok(*board, color, corner_draw, corner_index as int, speedy_draw, move_index as int),
    ensures
        r == rollout_choice(*board, color, corner_draw, corner_index as int, speedy_draw, move_index as int),
        speedy_draw && !(corners_of(moves@).len() > 0 && corner_draw) && moves@.len() > 1
            ==> is_first_best(*board, color, first_best(*board, color)),
{
    if moves.len() == 1 {
        moves[0]
    } else if corners.len() > 0 && corner_draw {
        corners[corner_index]
    } else if speedy_draw {
        let p = speedy_decide(board, color);
        proof {
            let k = choose|k: int| is_first_best(*board, color, k) && p == board.moves(color)[k];
            lemma_first_best_unique(*board, color, k);
        }
        p
    } else {
        moves[move_index]
    }
}

/// Plays the game out from `board` with `color` to move, under the rollout
/// policy, until neither side can move, and returns the final board. The
/// policy takes a single legal square; otherwise, with probability 3/5 and
/// when a corner is legal, a corner at random; otherwise, with probability
/// 3/5, the square of `speedy_decide`; otherwise any legal square at random
/// (each square is `rollout_choice` of the draws, through `rollout_pick`).
pub fn rollout(board: &Board, color: Color) -> (r: Board)
    requires
        board.wf(),
        is_player(color),
    ensures
        r.wf(),
        r.is_terminal(),
        reaches(*board, color, r),
{
    let ghost start = *board;
    let ghost start_color = color;
    let mut board = *board;
    let mut color = color;
    let mut is_passed = false;
    loop
        invariant_except_break
            board.wf(),
            is_passed ==> board.moves(opposite_of(color)).len() == 0,
            color == Color::Black || color == Color::White,
            forall|x: Board| reaches(board, color, x) ==> #[trigger] reaches(start, start_color, x),
        ensures
            board.wf(),
            board.is_terminal(),
            reaches(start, start_color, board),
        decreases vacancy(board), if is_passed { 0nat } else { 1nat },
    {
        let moves = board.valid_moves(color);
        if moves.len() == 0 {
            if is_passed {
                assert(reaches(board, color, board));
                break ;
            }
            let ghost before = color;
            is_passed = true;
            color = color.opposite();
            assert forall|x: Board| reaches(board, color, x) implies #[trigger] reaches(
                start,
                start_color,
                x,
            ) by {
                if !board.is_terminal() {
                    assert(opposite_of(color) == before);
                    assert(reaches(board, before, x));
                } else {
                    assert(reaches(board, before, x));
                }
            }
            continue ;
        }
        is_passed = false;
        let moves_len = moves.len();
        let corner_list = get_corner_list(&moves);
        let corner_draw = moves_len > 1 && corner_list.len() > 0 && random_ratio(3, 5);
        let corner_index = if corner_draw {
            random_below(corner_list.len())
        } else {
            0
        };
        let speedy_draw = moves_len > 1 && !corner_draw && random_ratio(3, 5);
        let move_index = if moves_len > 1 && !corner_draw && !speedy_draw {
            random_below(moves_len)
        } else {
            0
        };
        let m = rollout_pick(
            &board,
            color,
            &moves,
            &corner_list,
            corner_draw,
            corner_index,
            speedy_draw,
            move_index,
        );
        proof {
            lemma_rollout_choice_legal(board, color, corner_draw, corner_index as int, speedy_draw, move_index as int);
        }
        assert(board.moves(color).contains(m));
        let ghost k = choose|k: int| 0 <= k < board.moves(color).len() && board.moves(color)[k] == m;
        proof {
            lemma_legal_move_places(board, color, k);
            lemma_move_of_valid(board, color, k);
        }
        let ghost before = board;
        let ghost before_color = color;
        board.do_move(Move::Mv { x_ah: m.0 as u32, y_18: m.1 as u32 }, color);
        color = color.opposite();
        assert forall|x: Board| reaches(board, color, x) implies #[trigger] reaches(
            start,
            start_color,
            x,
        ) by {
            assert(before.moves(before_color)[k] == m);
            assert(board == before.apply(move_of(before.moves(before_color)[k]), before_color));
            assert(!before.is_terminal());
            assert(reaches(before, before_color, x));
        }
    }
    board
}

// ---------------------------------------------------------------------------
// The search tree.

/// A node of the search tree: a position, the side to move, its statistics
/// (from the side to move), and the children once expanded.
pub struct MonteNode {
    pub board: Board,
    pub color: Color,
    pub children: Vec<MonteNode>,
    pub is_expanded: bool,
    pub wins: i32,
    pub visits: i32,
    pub is_game_end: bool,
    pub prev_is_skip: bool,
    pub prev_move: Option<Move>,
    pub canput_diff: i32,
    pub mobility: i32,
    pub stone_sum: u64,
}

/// A node that nothing has visited yet.
pub open spec fn is_fresh(
    n: MonteNode,
    board: Board,
    color: Color,
    prev_move: Option<Move>,
    stone_sum: u64,
) -> bool {
    &&& n.board == board
    &&& n.color == color
    &&& n.children@.len() == 0
    &&& !n.is_expanded
    &&& n.wins == 0
    &&& n.visits == 0
    &&& !n.is_game_end
    &&& n.prev_move == prev_move
    &&& n.canput_diff == board.mobility_diff(color)
    &&& n.mobility == 0
    &&& n.stone_sum == stone_sum
}

/// Stones after one more move (never past `u64::MAX`).
pub open spec fn next_sum(s: u64) -> u64 {
    if s < u64::MAX {
        (s + 1) as u64
    } else {
        s
    }
}

/// Depth of the tree below a node, the node included.
pub open spec fn depth(n: MonteNode) -> nat
    decreases n, n.children@.len() + 1,
{
    1 + deepest(n, n.children@.len())
}

/// Greatest depth among the first `k` children.
pub open spec fn deepest(n: MonteNode, k: nat) -> nat
    decreases n, k,
{
    if k == 0 || k > n.children@.len() {
        0
    } else {
        let a = deepest(n, (k - 1) as nat);
        let b = depth(n.children@[k - 1]);
        if a > b {
            a
        } else {
            b
        }
    }
}

impl MonteNode {
    pub fn new(board: Board, color: Color, prev_move: Option<Move>, stone_sum: u64) -> (r: Self)
        ensures
            is_fresh(r, board, color, prev_move, stone_sum),
            !r.prev_is_skip,
    {
        let canput_diff = board.canput_diff(color);
        Self {
            board,
            color,
            children: Vec::new(),
            is_expanded: false,
            wins: 0,
            visits: 0,
            is_game_end: false,
            prev_is_skip: false,
            prev_move: prev_move,
            canput_diff: canput_diff,
            mobility: 0,
            stone_sum: stone_sum,
        }
    }

    /// Records one playout: its result and its mobility difference.
    pub fn add(&mut self, wins: i32, mobility: i32)
        requires
            i32::MIN <= old(self).wins + wins <= i32::MAX,
            old(self).visits < i32::MAX,
            i32::MIN <= old(self).mobility + mobility <= i32::MAX,
        ensures
            *final(self) == (MonteNode {
                wins: (old(self).wins + wins) as i32,
                visits: (old(self).visits + 1) as i32,
                mobility: (old(self).mobility + mobility) as i32,
                ..*old(self)
            }),
    {
        self.wins = self.wins + wins;
        self.visits = self.visits + 1;
        self.mobility = self.mobility + mobility;
    }

    /// Creates the children: one per legal square, in order, each one stone
    /// further. With no legal square, one child that passes, unless this
    /// node was itself reached by a pass, which ends the game here.
    pub fn expand(&mut self)
        requires
            old(self).board.wf(),
        ensures
            final(self).is_expanded,
            final(self).board == old(self).board,
            final(self).color == old(self).color,
            final(self).wins == old(self).wins,
            final(self).visits == old(self).visits,
            final(self).mobility == old(self).mobility,
            final(self).prev_move == old(self).prev_move,
            final(self).prev_is_skip == old(self).prev_is_skip,
            final(self).canput_diff == old(self).canput_diff,
            final(self).stone_sum == old(self).stone_sum,
            ({
                let b = old(self).board;
                let c = old(self).color;
                let ms = b.moves(c);
                let n0 = old(self).children@.len();
                let ch = final(self).children@;
                if ms.len() == 0 {
                    if old(self).prev_is_skip {
                        final(self).is_game_end && ch == old(self).children@
                    } else {
                        &&& final(self).is_game_end == old(self).is_game_end
                        &&& ch.len() == n0 + 1
                        &&& ch.subrange(0, n0 as int) == old(self).children@
                        &&& is_fresh(ch[n0 as int], b, opposite_of(c), Some(Move::Pass), old(self).stone_sum)
                        &&& ch[n0 as int].prev_is_skip
                    }
                } else {
                    &&& final(self).is_game_end == old(self).is_game_end
                    &&& ch.len() == n0 + ms.len()
                    &&& ch.subrange(0, n0 as int) == old(self).children@
                    &&& forall|k: int|
                        0 <= k < ms.len() ==> is_fresh(
                            #[trigger] ch[n0 + k],
                            b.apply(move_of(ms[k]), c),
                            opposite_of(c),
                            Some(move_of(ms[k])),
                            next_sum(old(self).stone_sum),
                        )
                    &&& old(self).stone_sum as int == b.stone_sum() ==> forall|k: int|
                        0 <= k < ms.len() ==> (#[trigger] ch[n0 + k]).stone_sum as int
                            == ch[n0 + k].board.stone_sum()
                }
            }),
    {
        let moves = self.board.valid_moves(self.color);
        self.is_expanded = true;
        if moves.len() == 0 {
            if self.prev_is_skip {
                self.is_game_end = true;
                return;
            }
            let mut child = MonteNode::new(
                self.board,
                self.color.opposite(),
                Some(Move::Pass),
                self.stone_sum,
            );
            child.prev_is_skip = true;
            self.children.push(child);
            return;
        }
        let ghost n0 = self.children@.len();
        let ghost old_children = self.children@;
        let mut i: usize = 0;
        while i < moves.len()
            invariant
                i <= moves@.len(),
                moves@ == self.board.moves(self.color),
                self.board.wf(),
                self.is_expanded,
                self.board == old(self).board,
                self.color == old(self).color,
                self.wins == old(self).wins,
                self.visits == old(self).visits,
                self.mobility == old(self).mobility,
                self.prev_move == old(self).prev_move,
                self.prev_is_skip == old(self).prev_is_skip,
                self.canput_diff == old(self).canput_diff,
                self.stone_sum == old(self).stone_sum,
                self.is_game_end == old(self).is_game_end,
                self.children@.len() == n0 + i,
                self.children@.subrange(0, n0 as int) == old_children,
                forall|k: int|
                    0 <= k < i ==> is_fresh(
                        #[trigger] self.children@[n0 + k],
                        self.board.apply(move_of(moves@[k]), self.color),
                        opposite_of(self.color),
                        Some(move_of(moves@[k])),
                        next_sum(self.stone_sum),
                    ),
            decreases moves@.len() - i,
        {
            let m = moves[i];
            proof {
                lemma_legal_move_places(self.board, self.color, i as int);
                lemma_move_of_valid(self.board, self.color, i as int);
            }
            let mut board = self.board;
            let selected_move = Move::Mv { x_ah: m.0 as u32, y_18: m.1 as u32 };
            board.do_move(selected_move, self.color);
            let child = MonteNode::new(
                board,
                self.color.opposite(),
                Some(selected_move),
                self.stone_sum.saturating_add(1),
            );
            let ghost before = self.children@;
            self.children.push(child);
            proof {
                assert(self.children@.subrange(0, n0 as int) == before.subrange(0, n0 as int));
                assert forall|k: int| 0 <= k < i + 1 implies is_fresh(
                    #[trigger] self.children@[n0 + k],
                    self.board.apply(move_of(moves@[k]), self.color),
                    opposite_of(self.color),
                    Some(move_of(moves@[k])),
                    next_sum(self.stone_sum),
                ) by {
                    if k < i {
                        assert(self.children@[n0 + k] == before[n0 + k]);
                    }
                }
            }
            i = i + 1;
        }
        proof {
            let b = old(self).board;
            let c = old(self).color;
            if old(self).stone_sum as int == b.stone_sum() {
                lemma_pop_below_bound(b.black, 64);
                lemma_pop_below_bound(b.white, 64);
                assert forall|k: int| 0 <= k < moves@.len() implies (#[trigger] self.children@[n0
                    + k]).stone_sum as int == self.children@[n0 + k].board.stone_sum() by {
                    law_legal_move_adds_one_stone(b, c, k);
                }
            }
        }
    }
}

/// Negates both parts of a playout result.
fn minus_tuple(a: (i32, i32)) -> (r: (i32, i32))
    requires
        a.0 > i32::MIN,
        a.1 > i32::MIN,
    ensures
        r.0 == -a.0,
        r.1 == -a.1,
{
    (-a.0, -a.1)
}

/// Depth of the tree below `root`, `root` included (at most `i32::MAX`).
pub fn calc_max_depth(root: &MonteNode) -> (r: i32)
    ensures
        r as int == if depth(*root) < i32::MAX { depth(*root) as int } else { i32::MAX as int },
    decreases root,
{
    let mut max_depth: i32 = 0;
    let mut i: usize = 0;
    while i < root.children.len()
        invariant
            i <= root.children@.len(),
            max_depth as int == if deepest(*root, i as nat) < i32::MAX {
                deepest(*root, i as nat) as int
            } else {
                i32::MAX as int
            },
        decreases root.children@.len() - i,
    {
        assert(decreases_to!(*root => root.children));
        let depth = calc_max_depth(&root.children[i]);
        if depth > max_depth {
            max_depth = depth;
        }
        i = i + 1;
    }
    if max_depth < i32::MAX {
        max_depth + 1
    } else {
        max_depth
    }
}

/// The move of the most visited child: `visits` holds the visit counts of
/// the children of a root expanded on `board` for `color`, one per legal
/// square in order; the first of the most visited wins.
pub fn best_root_move(board: &Board, color: Color, visits: &Vec<i32>) -> (r: Move)
    requires
        board.moves(color).len() > 0,
        visits@.len() == board.moves(color).len(),
    ensures
        board.is_valid(r, color),
        exists|k: int|
            0 <= k < visits@.len() && r == move_of(board.moves(color)[k]) && ((forall|j: int|
                0 <= j < visits@.len() ==> visits@[j] >= 0) ==> (forall|j: int|
                0 <= j < visits@.len() ==> visits@[j] <= visits@[k]) && (forall|j: int|
                0 <= j < k ==> visits@[j] < visits@[k])),
{
    let moves = board.valid_moves(color);
    let mut max_visits: i32 = -1;
    let mut max_visits_index: usize = 0;
    let mut i: usize = 0;
    while i < visits.len()
        invariant
            i <= visits@.len(),
            visits@.len() == moves@.len(),
            max_visits_index < visits@.len(),
            max_visits == -1 || (max_visits_index < i && max_visits == visits@[max_visits_index as int]),
            max_visits >= -1,
            max_visits == -1 ==> max_visits_index == 0,
            forall|j: int| 0 <= j < i ==> visits@[j] <= max_visits,
            forall|j: int| 0 <= j < max_visits_index ==> visits@[j] < max_visits,
        decreases visits@.len() - i,
    {
        if visits[i] > max_visits {
            max_visits = visits[i];
            max_visits_index = i;
        }
        i = i + 1;
    }
    proof {
        lemma_move_of_valid(*board, color, max_visits_index as int);
    }
    let m = moves[max_visits_index];
    Move::Mv { x_ah: m.0 as u32, y_18: m.1 as u32 }
}

// ---------------------------------------------------------------------------
// Playouts.

/// A node is expanded only on its playout after this many visits.
pub const EXPAND_THRESHOLD: i32 = 5;

/// Playouts that a tree may hold: its statistics then fit in `i32`.
pub const MAX_PLAYOUTS: i32 = 0x0100_0000;

/// The node's own statistics and position are sound: a well-formed
/// position with a side to move, result and mobility sums within what its
/// visits allow, an unexpanded node without children and an expanded one
/// that is not final with some.
pub open spec fn node_ok(n: MonteNode) -> bool {
    &&& n.board.wf()
    &&& is_player(n.color)
    &&& 0 <= n.visits
    &&& -n.visits <= n.wins <= n.visits
    &&& -64 * n.visits <= n.mobility <= 64 * n.visits
    &&& -64 <= n.canput_diff <= 64
    &&& !n.is_expanded ==> n.children@.len() == 0
    &&& n.is_expanded && !n.is_game_end ==> n.children@.len() > 0
}

/// Every node of the tree below `n` is sound, and no child has more visits
/// than its parent.
pub open spec fn tree_ok(n: MonteNode) -> bool
    decreases n, n.children@.len() + 1,
{
    node_ok(n) && children_ok(n, n.children@.len())
}

/// The first `k` children of `n` are sound trees with no more visits than `n`.
pub open spec fn children_ok(n: MonteNode, k: nat) -> bool
    decreases n, k,
{
    if k == 0 || k > n.children@.len() {
        true
    } else {
        children_ok(n, (k - 1) as nat) && tree_ok(n.children@[k - 1]) && n.children@[k - 1].visits
            <= n.visits
    }
}

/// Child `i` of `n` is a sound tree with no more visits than `n`.
pub open spec fn child_sound(n: MonteNode, i: int) -> bool {
    tree_ok(n.children@[i]) && n.children@[i].visits <= n.visits
}

proof fn lemma_child_ok(n: MonteNode, k: nat, i: int)
    requires
        k <= n.children@.len(),
        children_ok(n, k),
        0 <= i < k,
    ensures
        child_sound(n, i),
    decreases k,
{
    if i < k - 1 {
        lemma_child_ok(n, (k - 1) as nat, i);
    }
}

proof fn lemma_children_ok_intro(n: MonteNode, k: nat)
    requires
        k <= n.children@.len(),
        forall|i: int| 0 <= i < k ==> #[trigger] child_sound(n, i),
    ensures
        children_ok(n, k),
    decreases k,
{
    if k > 0 {
        lemma_children_ok_intro(n, (k - 1) as nat);
        assert(child_sound(n, k - 1));
    }
}

proof fn lemma_tree_ok_intro(n: MonteNode)
    requires
        n.board.wf(),
        is_player(n.color),
        0 <= n.visits,
        -n.visits <= n.wins <= n.visits,
        -64 * n.visits <= n.mobility <= 64 * n.visits,
        -64 <= n.canput_diff <= 64,
        !n.is_expanded ==> n.children@.len() == 0,
        n.is_expanded && !n.is_game_end ==> n.children@.len() > 0,
        forall|i: int| 0 <= i < n.children@.len() ==> #[trigger] child_sound(n, i),
    ensures
        tree_ok(n),
{
    lemma_children_ok_intro(n, n.children@.len());
}

/// What `tree_ok` says of a node and its children.
proof fn lemma_tree_ok_elim(n: MonteNode)
    requires
        tree_ok(n),
    ensures
        node_ok(n),
        forall|i: int| 0 <= i < n.children@.len() ==> #[trigger] child_sound(n, i),
{
    assert forall|i: int| 0 <= i < n.children@.len() implies #[trigger] child_sound(n, i) by {
        lemma_child_ok(n, n.children@.len(), i);
    }
}

/// Recording a playout at a sound node keeps its tree sound, also when
/// the playout went through child `i`, which became `c`.
#[verifier::spinoff_prover]
proof fn lemma_record_ok(before: MonteNode, after: MonteNode, changed: Option<(int, MonteNode)>)
    requires
        tree_ok(before),
        after.board == before.board,
        after.color == before.color,
        after.canput_diff == before.canput_diff,
        after.is_expanded == before.is_expanded,
        after.is_game_end == before.is_game_end,
        after.visits == before.visits + 1,
        -after.visits <= after.wins <= after.visits,
        -64 * after.visits <= after.mobility <= 64 * after.visits,
        match changed {
            None => after.children@ == before.children@,
            Some((i, c)) => 0 <= i < before.children@.len() && tree_ok(c) && c.visits
                <= before.visits + 1 && after.children@ == before.children@.update(i, c),
        },
    ensures
        tree_ok(after),
{
    lemma_tree_ok_elim(before);
    assert forall|j: int| 0 <= j < after.children@.len() implies #[trigger] child_sound(after, j) by {
        match changed {
            None => {
                assert(child_sound(before, j));
                assert(after.children@[j] == before.children@[j]);
            },
            Some((i, c)) => {
                if j == i {
                    assert(after.children@[j] == c);
                } else {
                    assert(child_sound(before, j));
                    assert(after.children@[j] == before.children@[j]);
                }
            },
        }
    }
    lemma_tree_ok_intro(after);
}

proof fn lemma_mobility_range(b: Board, c: Color)
    ensures
        -64 <= b.mobility_diff(c) <= 64,
{
    lemma_pop_below_bound(b.legal(Color::Black), 64);
    lemma_pop_below_bound(b.legal(Color::White), 64);
}

proof fn lemma_child_shallower(n: MonteNode, i: int)
    requires
        0 <= i < n.children@.len(),
    ensures
        depth(n.children@[i]) < depth(n),
{
    lemma_deepest_covers(n, n.children@.len(), i);
}

proof fn lemma_deepest_covers(n: MonteNode, k: nat, i: int)
    requires
        0 <= i < k <= n.children@.len(),
    ensures
        depth(n.children@[i]) <= deepest(n, k),
    decreases k,
{
    if i < k - 1 {
        lemma_deepest_covers(n, (k - 1) as nat, i);
    }
}

proof fn lemma_fresh_ok(n: MonteNode, board: Board, color: Color, prev: Option<Move>, sum: u64)
    requires
        is_fresh(n, board, color, prev, sum),
        board.wf(),
        is_player(color),
    ensures
        tree_ok(n),
{
    lemma_mobility_range(board, color);
    lemma_tree_ok_intro(n);
}

impl MonteNode {
    /// One playout from this node; returns its result and mobility
    /// difference from the side to move here, and records them.
    ///
    /// A node that is not expanded is expanded on a playout after more than
    /// `EXPAND_THRESHOLD` visits. At an expanded node, a final one scores its
    /// terminal sign; another descends into the child that `select` names
    /// (the first child when the name is out of range) and takes its result
    /// negated. At a node left unexpanded, a rollout is played and scored by
    /// its terminal sign, with the node's own mobility difference.
    pub fn play_out<F: Fn(&MonteNode) -> usize>(&mut self, select: &F) -> (r: (i32, i32))
        requires
            tree_ok(*old(self)),
            old(self).visits < MAX_PLAYOUTS,
            forall|n: &MonteNode| #[trigger] select.requires((n,)),
        ensures
            tree_ok(*final(self)),
            final(self).visits == old(self).visits + 1,
            final(self).wins == old(self).wins + r.0,
            final(self).mobility == old(self).mobility + r.1,
            final(self).board == old(self).board,
            final(self).color == old(self).color,
            final(self).prev_move == old(self).prev_move,
            final(self).prev_is_skip == old(self).prev_is_skip,
            final(self).canput_diff == old(self).canput_diff,
            final(self).stone_sum == old(self).stone_sum,
            old(self).is_expanded ==> final(self).is_expanded && final(self).children@.len()
                == old(self).children@.len(),
            -1 <= r.0 <= 1,
            -64 <= r.1 <= 64,
            !old(self).is_expanded && old(self).visits <= EXPAND_THRESHOLD ==> r.1
                == old(self).canput_diff && exists|end: Board|
                reaches(old(self).board, old(self).color, end) && r.0 == end.wol(old(self).color),
            !old(self).is_expanded && old(self).visits > EXPAND_THRESHOLD ==> final(self).is_expanded,
            old(self).is_expanded && old(self).is_game_end ==> r.0 == old(self).board.wol(
                old(self).color,
            ) && r.1 == 0 && final(self).children@ == old(self).children@,
            old(self).is_expanded && !old(self).is_game_end ==> exists|k: usize, c: MonteNode|
                #![trigger select.ensures((&*old(self),), k), c.visits]
                {
                    let i = if k < old(self).children@.len() {
                        k as int
                    } else {
                        0
                    };
                    let before = old(self).children@[i];
                    &&& select.ensures((&*old(self),), k)
                    &&& final(self).children@ == old(self).children@.update(i, c)
                    &&& c.visits == before.visits + 1
                    &&& r.0 == -(c.wins - before.wins)
                    &&& r.1 == -(c.mobility - before.mobility)
                },
        decreases depth(*old(self)), if !old(self).is_expanded && old(self).visits > EXPAND_THRESHOLD {
            1nat
        } else {
            0nat
        },
    {
        let ghost start = *self;
        proof {
            lemma_tree_ok_elim(start);
        }
        if !self.is_expanded && self.visits > EXPAND_THRESHOLD {
            self.expand();
            proof {
                let b = start.board;
                let c = start.color;
                let ms = b.moves(c);
                assert forall|i: int| 0 <= i < self.children@.len() implies #[trigger] child_sound(
                    *self,
                    i,
                ) && !self.children@[i].is_expanded && self.children@[i].visits == 0
                    && self.children@[i].children@.len() == 0 by {
                    if ms.len() == 0 {
                        lemma_fresh_ok(self.children@[i], b, opposite_of(c), Some(Move::Pass), start.stone_sum);
                    } else {
                        assert(self.children@[0 + i] == self.children@[i]);
                        lemma_legal_move_places(b, c, i);
                        lemma_fresh_ok(
                            self.children@[i],
                            b.apply(move_of(ms[i]), c),
                            opposite_of(c),
                            Some(move_of(ms[i])),
                            next_sum(start.stone_sum),
                        );
                    }
                }
                lemma_tree_ok_intro(*self);
            }
        }
        if self.is_expanded {
            proof {
                lemma_tree_ok_elim(*self);
                if !start.is_expanded {
                    assert(self.children@.len() > 0 || self.is_game_end);
                }
            }
            if self.is_game_end {
                let ret = (self.board.win_or_lose(self.color), 0i32);
                let ghost pre = *self;
                self.add(ret.0, 0);
                proof {
                    lemma_record_ok(pre, *self, None);
                }
                return ret;
            }
            let k = select(&*self);
            let i = if k < self.children.len() {
                k
            } else {
                0
            };
            let ghost mid = *self;
            proof {
                lemma_tree_ok_elim(mid);
                assert(child_sound(mid, i as int));
                if start.is_expanded {
                    assert(mid.children == start.children);
                    lemma_child_shallower(start, i as int);
                } else {
                    let c = mid.children@[i as int];
                    assert(!c.is_expanded && c.visits == 0 && c.children@.len() == 0);
                    assert(depth(c) == 1);
                    assert(depth(start) == 1);
                }
            }
            let mut child = self.children.remove(i);
            assert(child == mid.children@[i as int]);
            let res = child.play_out(select);
            let ghost after_child = child;
            self.children.insert(i, child);
            let result = minus_tuple(res);
            let ghost pre = *self;
            self.add(result.0, result.1);
            proof {
                assert(pre.children@ =~= mid.children@.update(i as int, after_child));
                lemma_record_ok(mid, *self, Some((i as int, after_child)));
                if start.is_expanded {
                    assert(mid == start);
                    assert(self.children@ == start.children@.update(i as int, after_child));
                }
            }
            return result;
        }
        let end = rollout(&self.board, self.color);
        let ret = end.win_or_lose(self.color);
        let mobility = self.canput_diff;
        self.add(ret, mobility);
        (ret, mobility)
    }
}

/// The tree search: expands a root for `color` on `board`, runs playouts
/// from it while the budget of `assigned_time_ms` milliseconds lasts (and
/// the tree holds fewer than `MAX_PLAYOUTS`), descending by `select`, and
/// plays the most visited legal square.
pub fn decide<F: Fn(&MonteNode) -> usize>(
    board: &Board,
    color: Color,
    assigned_time_ms: i32,
    select: &F,
) -> (r: Move)
    requires
        board.wf(),
        is_player(color),
        board.moves(color).len() > 0,
        forall|n: &MonteNode| #[trigger] select.requires((n,)),
    ensures
        board.is_valid(r, color),
{
    let mut root = MonteNode::new(*board, color, None, board.sum_stones());
    root.expand();
    proof {
        let ms = board.moves(color);
        assert forall|i: int| 0 <= i < root.children@.len() implies #[trigger] child_sound(
            root,
            i,
        ) by {
            assert(root.children@[0 + i] == root.children@[i]);
            lemma_legal_move_places(*board, color, i);
            lemma_fresh_ok(
                root.children@[i],
                board.apply(move_of(ms[i]), color),
                opposite_of(color),
                Some(move_of(ms[i])),
                next_sum(board.stone_sum() as u64),
            );
        }
        lemma_mobility_range(*board, color);
        lemma_tree_ok_intro(root);
    }
    let start = Instant::now();
    while !time_is_up(&start, assigned_time_ms) && root.visits < MAX_PLAYOUTS
        invariant
            tree_ok(root),
            root.is_expanded,
            root.children@.len() == board.moves(color).len(),
            forall|n: &MonteNode| #[trigger] select.requires((n,)),
        decreases MAX_PLAYOUTS - root.visits,
    {
        root.play_out(select);
    }
    let mut visits: Vec<i32> = Vec::new();
    let mut i: usize = 0;
    while i < root.children.len()
        invariant
            i <= root.children@.len(),
            visits@.len() == i,
            forall|j: int| 0 <= j < i ==> visits@[j] == (#[trigger] root.children@[j]).visits,
        decreases root.children@.len() - i,
    {
        visits.push(root.children[i].visits);
        i = i + 1;
    }
    best_root_move(board, color, &visits)
}

} // verus!
