use vstd::prelude::*;
use rayon::iter::{IntoParallelRefIterator, ParallelIterator};
use std::time::Instant;
use crate::bit_othello::{
    Board, Pos, move_of, lemma_legal_move_places, lemma_move_of_valid, lemma_pop_below_bound,
};
use crate::proto::{Color, Move, opposite_of};

verus! {

// ---------------------------------------------------------------------------
// The clock.

#[verifier::external_type_specification]
#[verifier::external_body]
pub struct ExInstant(std::time::Instant);

/// Relies on `Instant::now`: some instant; nothing is known of which.
pub assume_specification[ std::time::Instant::now ]() -> std::time::Instant;

/// Relies on `Instant::elapsed`: the time since the instant; nothing is
/// known of how much.
pub assume_specification[ std::time::Instant::elapsed ](
    this: &std::time::Instant,
) -> core::time::Duration;

/// Relies on `Duration::as_millis`: whole milliseconds; nothing is stated
/// of them.
pub assume_specification[ core::time::Duration::as_millis ](this: &core::time::Duration) -> u128;

/// The budget of `assigned_time_ms` milliseconds since `start` is spent.
pub(crate) fn time_is_up(start: &Instant, assigned_time_ms: i32) -> bool {
    start.elapsed().as_millis() > assigned_time_ms as u128
}

// ---------------------------------------------------------------------------
// The value of a position under perfect play.

/// Empty squares as a number: a stone added makes it smaller.
pub open spec fn vacancy(b: Board) -> nat {
    (0xffff_ffff_ffff_ffffu64 - b.occupied()) as nat
}

/// Value of a finished game for `c`: the disc difference when `exact`, else
/// the sign of win, draw or loss.
pub open spec fn leaf_value(b: Board, c: Color, exact: bool) -> int {
    if exact {
        b.disc_diff(c)
    } else {
        b.wol(c)
    }
}

/// Value for `c`, to move on `b`, of the game played out perfectly by both
/// sides (negamax); `passed` says that the previous move was a pass, so that
/// a second pass ends the game.
pub open spec fn game_value(b: Board, c: Color, passed: bool, exact: bool) -> int
    decreases vacancy(b), if passed { 1nat } else { 2nat }, 0nat,
{
    if b.moves(c).len() == 0 {
        if passed {
            leaf_value(b, c, exact)
        } else {
            -game_value(b, opposite_of(c), true, exact)
        }
    } else {
        best_value(b, c, b.moves(c), exact)
    }
}

/// The greatest of -64 and the values for `c` of playing each square of `ms`.
/// (A legal square adds a stone; the test on `vacancy` states the measure by
/// which the recursion ends.)
pub open spec fn best_value(b: Board, c: Color, ms: Seq<Pos>, exact: bool) -> int
    decreases vacancy(b), 0nat, ms.len(),
{
    if ms.len() == 0 {
        -64
    } else {
        let rest = best_value(b, c, ms.drop_last(), exact);
        let nb = b.apply(move_of(ms.last()), c);
        if vacancy(nb) < vacancy(b) {
            let v = -game_value(nb, opposite_of(c), false, exact);
            if v > rest {
                v
            } else {
                rest
            }
        } else {
            rest
        }
    }
}

/// Value for `c` of playing square `p`.
pub open spec fn child_value(b: Board, c: Color, p: Pos, exact: bool) -> int {
    -game_value(b.apply(move_of(p), c), opposite_of(c), false, exact)
}

/// Range of a value: a sign, or a disc difference.
pub open spec fn in_range(v: int, exact: bool) -> bool {
    if exact {
        -64 <= v <= 64
    } else {
        -1 <= v <= 1
    }
}

proof fn lemma_legal_child(b: Board, c: Color, p: Pos)
    requires
        b.wf(),
        b.moves(c).contains(p),
    ensures
        b.apply(move_of(p), c).wf(),
        vacancy(b.apply(move_of(p), c)) < vacancy(b),
{
    let k = choose|k: int| 0 <= k < b.moves(c).len() && b.moves(c)[k] == p;
    lemma_legal_move_places(b, c, k);
}

/// What `best_value` is: at least -64 and every child's value, and equal to
/// -64 or to one of them.
proof fn lemma_best_value(b: Board, c: Color, ms: Seq<Pos>, exact: bool)
    requires
        b.wf(),
        forall|k: int| 0 <= k < ms.len() ==> b.moves(c).contains(#[trigger] ms[k]),
    ensures
        best_value(b, c, ms, exact) >= -64,
        forall|k: int|
            0 <= k < ms.len() ==> best_value(b, c, ms, exact) >= #[trigger] child_value(
                b,
                c,
                ms[k],
                exact,
            ),
        best_value(b, c, ms, exact) == -64 || exists|k: int|
            0 <= k < ms.len() && best_value(b, c, ms, exact) == #[trigger] child_value(
                b,
                c,
                ms[k],
                exact,
            ),
    decreases ms.len(),
{
    if ms.len() > 0 {
        let init = ms.drop_last();
        assert forall|k: int| 0 <= k < init.len() implies b.moves(c).contains(#[trigger] init[k]) by {
            assert(init[k] == ms[k]);
        }
        lemma_best_value(b, c, init, exact);
        lemma_legal_child(b, c, ms.last());
        let best = best_value(b, c, ms, exact);
        assert forall|k: int| 0 <= k < ms.len() implies best >= #[trigger] child_value(
            b,
            c,
            ms[k],
            exact,
        ) by {
            if k < init.len() {
                assert(init[k] == ms[k]);
            }
        }
        if best != -64 {
            if best == child_value(b, c, ms.last(), exact) {
                assert(best == child_value(b, c, ms[ms.len() - 1], exact));
            } else {
                let j = choose|j: int|
                    0 <= j < init.len() && best_value(b, c, init, exact) == #[trigger] child_value(
                        b,
                        c,
                        init[j],
                        exact,
                    );
                assert(init[j] == ms[j]);
                assert(best == child_value(b, c, ms[j], exact));
            }
        }
    }
}

/// Values lie in their range: a sign, or a disc difference.
proof fn lemma_value_range(b: Board, c: Color, passed: bool, exact: bool)
    requires
        b.wf(),
    ensures
        in_range(game_value(b, c, passed, exact), exact),
    decreases vacancy(b), if passed { 1nat } else { 2nat },
{
    let ms = b.moves(c);
    if ms.len() == 0 {
        if passed {
            lemma_pop_below_bound(b.black, 64);
            lemma_pop_below_bound(b.white, 64);
        } else {
            lemma_value_range(b, opposite_of(c), true, exact);
        }
    } else {
        assert forall|k: int| 0 <= k < ms.len() implies b.moves(c).contains(#[trigger] ms[k]) by {}
        lemma_best_value(b, c, ms, exact);
        assert forall|k: int| 0 <= k < ms.len() implies in_range(
            #[trigger] child_value(b, c, ms[k], exact),
            exact,
        ) by {
            lemma_legal_child(b, c, ms[k]);
            lemma_value_range(b.apply(move_of(ms[k]), c), opposite_of(c), false, exact);
        }
        assert(best_value(b, c, ms, exact) >= child_value(b, c, ms[0], exact));
    }
}

/// The win/draw/loss value of every well-formed position is -1, 0 or 1,
/// and its disc-difference value lies in -64..=64.
pub proof fn law_values_in_range(b: Board, c: Color, passed: bool)
    requires
        b.wf(),
    ensures
        -1 <= game_value(b, c, passed, false) <= 1,
        -64 <= game_value(b, c, passed, true) <= 64,
{
    lemma_value_range(b, c, passed, false);
    lemma_value_range(b, c, passed, true);
}

proof fn lemma_child_range(b: Board, c: Color, p: Pos, exact: bool)
    requires
        b.wf(),
        b.moves(c).contains(p),
    ensures
        in_range(child_value(b, c, p, exact), exact),
{
    lemma_legal_child(b, c, p);
    lemma_value_range(b.apply(move_of(p), c), opposite_of(c), false, exact);
}

// ---------------------------------------------------------------------------
// Marks of the children already searched.

/// Number of marked entries.
pub open spec fn count_marked(s: Seq<bool>) -> nat
    decreases s.len(),
{
    if s.len() == 0 {
        0
    } else {
        count_marked(s.drop_last()) + if s.last() { 1nat } else { 0nat }
    }
}

proof fn lemma_count_mark(s: Seq<bool>, i: int)
    requires
        0 <= i < s.len(),
        !s[i],
    ensures
        count_marked(s.update(i, true)) == count_marked(s) + 1,
    decreases s.len(),
{
    let t = s.update(i, true);
    if i == s.len() - 1 {
        assert(t.drop_last() == s.drop_last());
    } else {
        assert(t.drop_last() == s.drop_last().update(i, true));
        lemma_count_mark(s.drop_last(), i);
    }
}

proof fn lemma_count_all(s: Seq<bool>)
    ensures
        count_marked(s) <= s.len(),
        count_marked(s) == s.len() <==> forall|k: int| 0 <= k < s.len() ==> #[trigger] s[k],
    decreases s.len(),
{
    if s.len() > 0 {
        lemma_count_all(s.drop_last());
        if forall|k: int| 0 <= k < s.len() ==> #[trigger] s[k] {
            assert forall|k: int| 0 <= k < s.drop_last().len() implies #[trigger] s.drop_last()[k] by {
                assert(s.drop_last()[k] == s[k]);
            }
            assert(s[s.len() - 1]);
        }
        if count_marked(s) == s.len() {
            assert forall|k: int| 0 <= k < s.len() implies #[trigger] s[k] by {
                if k < s.len() - 1 {
                    assert(s.drop_last()[k] == s[k]);
                }
            }
        }
    }
}

// ---------------------------------------------------------------------------
// The recursive search.

/// Negates a value, keeping "unknown".
fn reverse_value(value: Option<i32>) -> (r: Option<i32>)
    requires
        value matches Some(x) ==> x > i32::MIN,
    ensures
        match value {
            Some(x) => r == Some((-x) as i32),
            None => r is None,
        },
{
    match value {
        Some(x) => Some(-x),
        None => None,
    }
}

/// The maximum `max_eval` over the children marked so far.
pub open spec fn tracks_max(
    b: Board,
    c: Color,
    ms: Seq<Pos>,
    marked: Seq<bool>,
    max_eval: int,
    exact: bool,
) -> bool {
    &&& max_eval >= -64
    &&& forall|k: int|
        0 <= k < ms.len() && #[trigger] marked[k] ==> max_eval >= child_value(b, c, ms[k], exact)
    &&& max_eval == -64 || exists|k: int|
        0 <= k < ms.len() && #[trigger] marked[k] && max_eval == child_value(b, c, ms[k], exact)
}

proof fn lemma_tracks_all(b: Board, c: Color, marked: Seq<bool>, max_eval: int, exact: bool)
    requires
        b.wf(),
        b.moves(c).len() > 0,
        marked.len() == b.moves(c).len(),
        forall|k: int| 0 <= k < marked.len() ==> #[trigger] marked[k],
        tracks_max(b, c, b.moves(c), marked, max_eval, exact),
    ensures
        max_eval == game_value(b, c, false, exact),
{
    let ms = b.moves(c);
    assert forall|k: int| 0 <= k < ms.len() implies b.moves(c).contains(#[trigger] ms[k]) by {}
    lemma_best_value(b, c, ms, exact);
    let best = best_value(b, c, ms, exact);
    assert(max_eval >= best) by {
        if best != -64 {
            let k = choose|k: int| 0 <= k < ms.len() && best == #[trigger] child_value(b, c, ms[k], exact);
            assert(marked[k]);
        }
    }
    assert(max_eval <= best) by {
        if max_eval != -64 {
            let k = choose|k: int|
                0 <= k < ms.len() && #[trigger] marked[k] && max_eval == child_value(b, c, ms[k], exact);
            assert(best >= child_value(b, c, ms[k], exact));
        }
    }
}

/// Searches every child of `board`, which has a legal square: by
/// descending mobility difference of the mover while fewer than 60 stones
/// are down and not `exact`, else in the order of `moves`. Unless `exact`,
/// a proven win ends the search.
fn search_children(
    board: &Board,
    color: Color,
    moves: &Vec<Pos>,
    start_time: &Instant,
    assigned_time_ms: i32,
    stone_num: u64,
    exact: bool,
) -> (r: Option<i32>)
    requires
        board.wf(),
        moves@ == board.moves(color),
        moves@.len() > 0,
    ensures
        r matches Some(v) ==> v == game_value(*board, color, false, exact),
    decreases vacancy(*board), 0nat, 1nat,
{
    let n = moves.len();
    let mut max_eval: i32 = -64;
    let mut used: Vec<bool> = Vec::new();
    while used.len() < n
        invariant
            used@.len() <= n,
            n == moves@.len(),
            forall|k: int| 0 <= k < used@.len() ==> !(#[trigger] used@[k]),
        decreases n - used@.len(),
    {
        used.push(false);
    }
    proof {
        assert(tracks_max(*board, color, moves@, used@, max_eval as int, exact));
        assert(count_marked(used@) == 0) by {
            lemma_count_zero(used@);
        }
    }
    if !exact && stone_num < 60 {
        let mut board_list: Vec<(Board, i32, Move)> = Vec::new();
        let mut i: usize = 0;
        while i < n
            invariant
                i <= n,
                n == moves@.len(),
                moves@ == board.moves(color),
                board.wf(),
                board_list@.len() == i,
                forall|k: int|
                    0 <= k < i ==> (#[trigger] board_list@[k]).0 == board.apply(
                        move_of(moves@[k]),
                        color,
                    ) && board_list@[k].2 == move_of(moves@[k]),
            decreases n - i,
        {
            let m = moves[i];
            proof {
                lemma_legal_move_places(*board, color, i as int);
            }
            let mut child = *board;
            let selected_move = Move::Mv { x_ah: m.0 as u32, y_18: m.1 as u32 };
            child.do_move(selected_move, color);
            let canput_diff = child.canput_diff(color);
            board_list.push((child, canput_diff, selected_move));
            i = i + 1;
        }
        let mut round: usize = 0;
        while round < n
            invariant
                round <= n,
                n == moves@.len(),
                moves@ == board.moves(color),
                board.wf(),
                !exact,
                used@.len() == n,
                board_list@.len() == n,
                count_marked(used@) == round,
                forall|k: int|
                    0 <= k < n ==> (#[trigger] board_list@[k]).0 == board.apply(
                        move_of(moves@[k]),
                        color,
                    ) && board_list@[k].2 == move_of(moves@[k]),
                tracks_max(*board, color, moves@, used@, max_eval as int, exact),
            decreases n - round,
        {
            // the unsearched child with the greatest mobility difference
            let mut best: usize = n;
            let mut j: usize = 0;
            while j < n
                invariant
                    j <= n,
                    n == used@.len(),
                    n == board_list@.len(),
                    best == n || (best < n && !used@[best as int]),
                    best == n ==> forall|k: int| 0 <= k < j ==> #[trigger] used@[k],
                decreases n - j,
            {
                if !used[j] && (best == n || board_list[j].1 > board_list[best].1) {
                    best = j;
                }
                j = j + 1;
            }
            proof {
                lemma_count_all(used@);
            }
            let ghost old_used = used@;
            used.set(best, true);
            proof {
                lemma_count_mark(old_used, best as int);
            }
            let entry = board_list[best];
            let child = entry.0;
            let selected_move = entry.2;
            proof {
                lemma_legal_move_places(*board, color, best as int);
                lemma_value_range(child, opposite_of(color), false, exact);
                lemma_child_range(*board, color, moves@[best as int], exact);
            }
            let ret = reverse_value(
                calc_by_dfs(
                    &child,
                    color.opposite(),
                    Some(selected_move),
                    start_time,
                    assigned_time_ms,
                    stone_num.saturating_add(1),
                ),
            );
            match ret {
                Some(ret_raw) => {
                    if ret_raw > max_eval {
                        max_eval = ret_raw;
                    }
                    proof {
                        assert(ret_raw == child_value(*board, color, moves@[best as int], exact));
                        assert forall|k: int|
                            0 <= k < moves@.len() && #[trigger] used@[k] implies max_eval
                            >= child_value(*board, color, moves@[k], exact) by {
                            if k != best {
                                assert(old_used[k]);
                            }
                        }
                        if max_eval != -64 {
                            if max_eval == ret_raw {
                                assert(used@[best as int]);
                            } else {
                                let k = choose|k: int|
                                    0 <= k < moves@.len() && #[trigger] old_used[k] && max_eval
                                        == child_value(*board, color, moves@[k], exact);
                                assert(used@[k]);
                            }
                        }
                    }
                    if ret_raw == 1 {
                        proof {
                            lemma_best_value(*board, color, moves@, exact);
                            assert(forall|k: int| 0 <= k < moves@.len() ==> board.moves(color).contains(#[trigger] moves@[k]));
                            assert forall|k: int| 0 <= k < moves@.len() implies in_range(
                                #[trigger] child_value(*board, color, moves@[k], exact),
                                exact,
                            ) by {
                                lemma_child_range(*board, color, moves@[k], exact);
                            }
                            lemma_best_value(*board, color, moves@, exact);
                        }
                        return Some(1);
                    }
                },
                None => {
                    return None;
                },
            }
            round = round + 1;
        }
        proof {
            lemma_count_all(used@);
            lemma_tracks_all(*board, color, used@, max_eval as int, exact);
        }
        Some(max_eval)
    } else {
        let mut i: usize = 0;
        while i < n
            invariant
                i <= n,
                n == moves@.len(),
                moves@ == board.moves(color),
                board.wf(),
                used@.len() == n,
                forall|k: int| 0 <= k < n ==> (#[trigger] used@[k] <==> k < i),
                tracks_max(*board, color, moves@, used@, max_eval as int, exact),
            decreases n - i,
        {
            let m = moves[i];
            proof {
                lemma_legal_move_places(*board, color, i as int);
            }
            let mut child = *board;
            let selected_move = Move::Mv { x_ah: m.0 as u32, y_18: m.1 as u32 };
            child.do_move(selected_move, color);
            proof {
                lemma_value_range(child, opposite_of(color), false, exact);
                lemma_child_range(*board, color, m, exact);
            }
            let ghost old_used = used@;
            used.set(i, true);
            let ret = if exact {
                reverse_value(
                    perfect_read_dfs(
                        &child,
                        color.opposite(),
                        Some(selected_move),
                        start_time,
                        assigned_time_ms,
                    ),
                )
            } else {
                reverse_value(
                    calc_by_dfs(
                        &child,
                        color.opposite(),
                        Some(selected_move),
                        start_time,
                        assigned_time_ms,
                        stone_num.saturating_add(1),
                    ),
                )
            };
            match ret {
                Some(ret_raw) => {
                    if ret_raw > max_eval {
                        max_eval = ret_raw;
                    }
                    proof {
                        assert(ret_raw == child_value(*board, color, moves@[i as int], exact));
                        assert forall|k: int|
                            0 <= k < moves@.len() && #[trigger] used@[k] implies max_eval
                            >= child_value(*board, color, moves@[k], exact) by {
                            if k != i {
                                assert(old_used[k]);
                            }
                        }
                        if max_eval != -64 {
                            if max_eval == ret_raw {
                                assert(used@[i as int]);
                            } else {
                                let k = choose|k: int|
                                    0 <= k < moves@.len() && #[trigger] old_used[k] && max_eval
                                        == child_value(*board, color, moves@[k], exact);
                                assert(used@[k]);
                            }
                        }
                    }
                    if !exact && ret_raw == 1 {
                        proof {
                            assert forall|k: int| 0 <= k < moves@.len() implies in_range(
                                #[trigger] child_value(*board, color, moves@[k], exact),
                                exact,
                            ) by {
                                lemma_child_range(*board, color, moves@[k], exact);
                            }
                            assert(forall|k: int| 0 <= k < moves@.len() ==> board.moves(color).contains(#[trigger] moves@[k]));
                            lemma_best_value(*board, color, moves@, exact);
                        }
                        return Some(1);
                    }
                },
                None => {
                    return None;
                },
            }
            i = i + 1;
        }
        proof {
            lemma_tracks_all(*board, color, used@, max_eval as int, exact);
        }
        Some(max_eval)
    }
}

proof fn lemma_count_zero(s: Seq<bool>)
    requires
        forall|k: int| 0 <= k < s.len() ==> !(#[trigger] s[k]),
    ensures
        count_marked(s) == 0,
    decreases s.len(),
{
    if s.len() > 0 {
        assert forall|k: int| 0 <= k < s.drop_last().len() implies !(#[trigger] s.drop_last()[k]) by {
            assert(s.drop_last()[k] == s[k]);
        }
        lemma_count_zero(s.drop_last());
    }
}

/// Win/draw/loss search: `Some` of the value for `color` (+1, 0 or -1)
/// under perfect play, or `None` once the time budget is spent. While
/// fewer than 60 stones are down, children are searched by descending
/// mobility difference; a proven win ends the search of a node.
pub fn calc_by_dfs(
    board: &Board,
    color: Color,
    prev_move: Option<Move>,
    start_time: &Instant,
    assigned_time_ms: i32,
    stone_num: u64,
) -> (r: Option<i32>)
    requires
        board.wf(),
    ensures
        r matches Some(v) ==> v == game_value(
            *board,
            color,
            prev_move == Some(Move::Pass),
            false,
        ),
    decreases vacancy(*board), if prev_move == Some(Move::Pass) { 1nat } else { 2nat }, 0nat,
{
    if time_is_up(start_time, assigned_time_ms) {
        return None;
    }
    let moves = board.valid_moves(color);
    if moves.len() == 0 {
        if prev_move == Some(Move::Pass) {
            Some(board.win_or_lose(color))
        } else {
            proof {
                lemma_value_range(*board, opposite_of(color), true, false);
            }
            reverse_value(
                calc_by_dfs(
                    board,
                    color.opposite(),
                    Some(Move::Pass),
                    start_time,
                    assigned_time_ms,
                    stone_num,
                ),
            )
        }
    } else {
        search_children(board, color, &moves, start_time, assigned_time_ms, stone_num, false)
    }
}

/// Disc-difference search: `Some` of the final disc difference for `color`
/// under perfect play, or `None` once the time budget is spent.
pub fn perfect_read_dfs(
    board: &Board,
    color: Color,
    prev_move: Option<Move>,
    start_time: &Instant,
    assigned_time_ms: i32,
) -> (r: Option<i32>)
    requires
        board.wf(),
    ensures
        r matches Some(v) ==> v == game_value(*board, color, prev_move == Some(Move::Pass), true),
    decreases vacancy(*board), if prev_move == Some(Move::Pass) { 1nat } else { 2nat }, 0nat,
{
    if time_is_up(start_time, assigned_time_ms) {
        return None;
    }
    let moves = board.valid_moves(color);
    if moves.len() == 0 {
        if prev_move == Some(Move::Pass) {
            Some(board.diff_stones(color))
        } else {
            proof {
                lemma_value_range(*board, opposite_of(color), true, true);
            }
            reverse_value(
                perfect_read_dfs(
                    board,
                    color.opposite(),
                    Some(Move::Pass),
                    start_time,
                    assigned_time_ms,
                ),
            )
        }
    } else {
        search_children(board, color, &moves, start_time, assigned_time_ms, 0, true)
    }
}

// ---------------------------------------------------------------------------
// The root, searched in parallel.

/// Searches the child that `color` reaches by playing `m`: `Some` of its
/// value for `color`, or `None` once the time budget is spent.
fn solve_root(
    board: &Board,
    color: Color,
    m: Pos,
    start_time: &Instant,
    assigned_time_ms: i32,
    stone_num: u64,
    exact: bool,
) -> (r: Option<i32>)
    requires
        board.wf(),
        board.moves(color).contains(m),
    ensures
        r matches Some(v) ==> v == child_value(*board, color, m, exact),
{
    proof {
        let k = choose|k: int| 0 <= k < board.moves(color).len() && board.moves(color)[k] == m;
        lemma_legal_move_places(*board, color, k);
    }
    let mut child = *board;
    let selected_move = Move::Mv { x_ah: m.0 as u32, y_18: m.1 as u32 };
    child.do_move(selected_move, color);
    proof {
        lemma_value_range(child, opposite_of(color), false, exact);
    }
    if exact {
        reverse_value(
            perfect_read_dfs(
                &child,
                color.opposite(),
                Some(selected_move),
                start_time,
                assigned_time_ms,
            ),
        )
    } else {
        reverse_value(
            calc_by_dfs(
                &child,
                color.opposite(),
                Some(selected_move),
                start_time,
                assigned_time_ms,
                stone_num,
            ),
        )
    }
}

/// Relies on rayon's `par_iter().map(..).collect()` on a `Vec`: the closure
/// runs once for each item, possibly on other threads, and the results come
/// back one per item, in the items' order.
#[verifier::external_body]
fn solve_roots(
    board: &Board,
    color: Color,
    moves: &Vec<Pos>,
    start_time: &Instant,
    assigned_time_ms: i32,
    stone_num: u64,
    exact: bool,
) -> (r: Vec<Option<i32>>)
    requires
        board.wf(),
        forall|k: int| 0 <= k < moves@.len() ==> board.moves(color).contains(#[trigger] moves@[k]),
    ensures
        r@.len() == moves@.len(),
        forall|k: int|
            0 <= k < r@.len() ==> (#[trigger] r@[k] matches Some(v) ==> v == child_value(
                *board,
                color,
                moves@[k],
                exact,
            )),
{
    moves.par_iter().map(
        |m| solve_root(board, color, *m, start_time, assigned_time_ms, stone_num, exact),
    ).collect()
}

proof fn lemma_root_facts(b: Board, c: Color, exact: bool)
    requires
        b.wf(),
    ensures
        forall|k: int| 0 <= k < b.moves(c).len() ==> b.moves(c).contains(#[trigger] b.moves(c)[k]),
        forall|k: int|
            0 <= k < b.moves(c).len() ==> in_range(
                #[trigger] child_value(b, c, b.moves(c)[k], exact),
                exact,
            ),
        b.moves(c).len() > 0 ==> best_value(b, c, b.moves(c), exact) == game_value(b, c, false, exact),
        forall|k: int|
            0 <= k < b.moves(c).len() ==> (#[trigger] b.moves(c)[k]).0 <= 8 && b.moves(c)[k].1 <= 8,
{
    let ms = b.moves(c);
    assert forall|k: int| 0 <= k < ms.len() implies (#[trigger] ms[k]).0 <= 8 && ms[k].1 <= 8 by {
        lemma_move_of_valid(b, c, k);
    }
    assert forall|k: int| 0 <= k < ms.len() implies in_range(
        #[trigger] child_value(b, c, ms[k], exact),
        exact,
    ) by {
        lemma_child_range(b, c, ms[k], exact);
    }
    lemma_best_value(b, c, ms, exact);
}

// ---------------------------------------------------------------------------
// Combining the root results.

/// `rs` holds `Some(v)` somewhere.
pub open spec fn holds(rs: Seq<Option<i32>>, v: i32) -> bool {
    exists|k: int| 0 <= k < rs.len() && rs[k] == Some(v)
}

/// `k` is the first index at which `rs` holds `Some(v)`.
pub open spec fn first_with(rs: Seq<Option<i32>>, v: i32, k: int) -> bool {
    &&& 0 <= k < rs.len()
    &&& rs[k] == Some(v)
    &&& forall|j: int| 0 <= j < k ==> rs[j] != Some(v)
}

/// Every root search finished.
pub open spec fn all_done(rs: Seq<Option<i32>>) -> bool {
    forall|k: int| 0 <= k < rs.len() ==> (#[trigger] rs[k]) is Some
}

/// The finished results lie in `lo..=hi`.
pub open spec fn results_within(rs: Seq<Option<i32>>, lo: int, hi: int) -> bool {
    forall|k: int| 0 <= k < rs.len() ==> (#[trigger] rs[k] matches Some(v) ==> lo <= v <= hi)
}

/// `r` is what the win/draw/loss root makes of the results `rs` of its
/// searches of the squares `ms`: the first proven win; else the first
/// draw; else, when a search did not finish, `(GiveUp, None)`; else every
/// square loses and the first is played (`(Pass, Some(-64))` with none).
pub open spec fn wdl_pick(ms: Seq<Pos>, rs: Seq<Option<i32>>, r: (Move, Option<i32>)) -> bool {
    if holds(rs, 1) {
        exists|k: int| first_with(rs, 1, k) && r == (move_of(ms[k]), Some(1i32))
    } else if holds(rs, 0) {
        exists|k: int| first_with(rs, 0, k) && r == (move_of(ms[k]), Some(0i32))
    } else if !all_done(rs) {
        r == (Move::GiveUp, None::<i32>)
    } else if rs.len() > 0 {
        r == (move_of(ms[0]), Some(-1i32))
    } else {
        r == (Move::Pass, Some(-64i32))
    }
}

/// `k` is the first index of a greatest result (all results present).
pub open spec fn first_max(rs: Seq<Option<i32>>, k: int) -> bool {
    &&& 0 <= k < rs.len()
    &&& forall|j: int| 0 <= j < rs.len() ==> rs[j]->0 <= rs[k]->0
    &&& forall|j: int| 0 <= j < k ==> rs[j]->0 < rs[k]->0
}

/// `r` is what the disc-difference root makes of the results `rs` of its
/// searches of the squares `ms`: `(GiveUp, None)` when a search did not
/// finish; else the first square of greatest result, with that result
/// (`(Pass, Some(-65))` with no square).
pub open spec fn exact_pick(ms: Seq<Pos>, rs: Seq<Option<i32>>, r: (Move, Option<i32>)) -> bool {
    if !all_done(rs) {
        r == (Move::GiveUp, None::<i32>)
    } else if rs.len() == 0 {
        r == (Move::Pass, Some(-65i32))
    } else {
        exists|k: int| first_max(rs, k) && r == (move_of(ms[k]), rs[k])
    }
}

/// The win/draw/loss root's choice from the results of its searches, one
/// per square of `moves` (`None` for a search that ran out of time).
pub fn pick_wdl(moves: &Vec<Pos>, results: &Vec<Option<i32>>) -> (r: (Move, Option<i32>))
    requires
        results@.len() == moves@.len(),
        results_within(results@, -1, 1),
        forall|k: int| 0 <= k < moves@.len() ==> (#[trigger] moves@[k]).0 <= 8 && moves@[k].1 <= 8,
    ensures
        wdl_pick(moves@, results@, r),
{
    let ghost ms = moves@;
    let ghost rs = results@;
    let n = results.len();
    let mut max_eval: i32 = -64;
    let mut best_move = Move::Pass;
    let mut results_len: usize = 0;
    let ghost mut bi: int = 0;
    let mut i: usize = 0;
    while i < n
        invariant
            i <= n,
            n == rs.len(),
            rs == results@,
            ms == moves@,
            rs.len() == ms.len(),
            results_within(rs, -1, 1),
            forall|k: int| 0 <= k < ms.len() ==> (#[trigger] ms[k]).0 <= 8 && ms[k].1 <= 8,
            forall|k: int| 0 <= k < i ==> rs[k] != Some(1i32),
            results_len <= i,
            results_len == i ==> forall|k: int| 0 <= k < i ==> (#[trigger] rs[k]) is Some,
            results_len < i ==> exists|k: int| 0 <= k < i && rs[k] is None,
            max_eval == -64 ==> best_move == Move::Pass && forall|k: int|
                0 <= k < i ==> (#[trigger] rs[k]) is None,
            max_eval != -64 ==> {
                &&& 0 <= bi < i
                &&& rs[bi] == Some(max_eval)
                &&& best_move == move_of(ms[bi])
                &&& -1 <= max_eval <= 0
                &&& forall|k: int| 0 <= k < i ==> (#[trigger] rs[k] matches Some(v) ==> v <= max_eval)
                &&& forall|k: int| 0 <= k < bi ==> (#[trigger] rs[k] matches Some(v) ==> v < max_eval)
            },
        decreases n - i,
    {
        if let Some(ret) = results[i] {
            results_len = results_len + 1;
            if ret > max_eval {
                max_eval = ret;
                best_move = Move::Mv { x_ah: moves[i].0 as u32, y_18: moves[i].1 as u32 };
                proof {
                    bi = i as int;
                }
            }
            if ret == 1 {
                proof {
                    assert(first_with(rs, 1, i as int));
                }
                return (best_move, Some(max_eval));
            }
        }
        i = i + 1;
    }
    if max_eval == 0 {
        proof {
            assert(first_with(rs, 0, bi));
        }
        return (best_move, Some(max_eval));
    }
    proof {
        assert(!holds(rs, 1));
        assert(!holds(rs, 0));
    }
    if results_len < n {
        return (Move::GiveUp, None);
    }
    proof {
        if n > 0 {
            assert(rs[0] is Some);
            assert(rs[0] == Some(-1i32));
            assert(bi == 0);
        }
    }
    (best_move, Some(max_eval))
}

/// The disc-difference root's choice from the results of its searches, one
/// per square of `moves` (`None` for a search that ran out of time).
pub fn pick_exact(moves: &Vec<Pos>, results: &Vec<Option<i32>>) -> (r: (Move, Option<i32>))
    requires
        results@.len() == moves@.len(),
        results_within(results@, -64, 64),
        forall|k: int| 0 <= k < moves@.len() ==> (#[trigger] moves@[k]).0 <= 8 && moves@[k].1 <= 8,
    ensures
        exact_pick(moves@, results@, r),
{
    let ghost ms = moves@;
    let ghost rs = results@;
    let n = results.len();
    let mut i: usize = 0;
    while i < n
        invariant
            i <= n,
            n == rs.len(),
            rs == results@,
            forall|k: int| 0 <= k < i ==> (#[trigger] rs[k]) is Some,
        decreases n - i,
    {
        if results[i].is_none() {
            return (Move::GiveUp, None);
        }
        i = i + 1;
    }
    let mut max_eval: i32 = -65;
    let mut best_move = Move::Pass;
    let ghost mut bi: int = 0;
    let mut i: usize = 0;
    while i < n
        invariant
            i <= n,
            n == rs.len(),
            rs == results@,
            ms == moves@,
            rs.len() == ms.len(),
            results_within(rs, -64, 64),
            all_done(rs),
            forall|k: int| 0 <= k < ms.len() ==> (#[trigger] ms[k]).0 <= 8 && ms[k].1 <= 8,
            i == 0 ==> max_eval == -65 && best_move == Move::Pass,
            i > 0 ==> {
                &&& 0 <= bi < i
                &&& rs[bi] == Some(max_eval)
                &&& best_move == move_of(ms[bi])
                &&& forall|k: int| 0 <= k < i ==> rs[k]->0 <= max_eval
                &&& forall|k: int| 0 <= k < bi ==> rs[k]->0 < max_eval
            },
        decreases n - i,
    {
        assert(rs[i as int] is Some);
        if let Some(ret) = results[i] {
            if ret > max_eval {
                max_eval = ret;
                best_move = Move::Mv { x_ah: moves[i].0 as u32, y_18: moves[i].1 as u32 };
                proof {
                    bi = i as int;
                }
            }
        }
        i = i + 1;
    }
    proof {
        if n > 0 {
            assert(first_max(rs, bi));
        }
    }
    (best_move, Some(max_eval))
}

// ---------------------------------------------------------------------------
// The roots.

/// The results of the root searches of `board` for `color`: one per legal
/// square, each the value of that square when its search finished.
pub open spec fn root_results(b: Board, c: Color, rs: Seq<Option<i32>>, exact: bool) -> bool {
    &&& rs.len() == b.moves(c).len()
    &&& forall|k: int|
        0 <= k < rs.len() ==> (#[trigger] rs[k] matches Some(v) ==> v == child_value(
            b,
            c,
            b.moves(c)[k],
            exact,
        ))
}

/// The win/draw/loss search from the root, one parallel task per legal
/// square, under a budget of `assigned_time_ms` milliseconds: the results
/// of the searches that finished are combined by `pick_wdl`.
///
/// So the move returned with `Some(v)` is a legal square of value `v` for
/// `color`; a value other than 0 is the value of the position; when every
/// search finishes, the result is the first best square with the value of
/// the position.
pub fn decide(board: &Board, color: Color, assigned_time_ms: i32) -> (r: (Move, Option<i32>))
    requires
        board.wf(),
    ensures
        exists|rs: Seq<Option<i32>>| root_results(*board, color, rs, false) && wdl_pick(
            board.moves(color),
            rs,
            r,
        ),
        r.1 is None ==> r.0 == Move::GiveUp,
        board.moves(color).len() == 0 ==> r == (Move::Pass, Some(-64i32)),
        board.moves(color).len() > 0 ==> (r.1 matches Some(v) ==> {
            &&& -1 <= v <= 1
            &&& exists|k: int|
                0 <= k < board.moves(color).len() && r.0 == move_of(board.moves(color)[k]) && v
                    == child_value(*board, color, board.moves(color)[k], false)
            &&& v != 0 ==> v == game_value(*board, color, false, false)
        }),
{
    let moves = board.valid_moves(color);
    let start_time = Instant::now();
    let stone_num = board.sum_stones();
    proof {
        lemma_root_facts(*board, color, false);
    }
    let results = solve_roots(
        board,
        color,
        &moves,
        &start_time,
        assigned_time_ms,
        stone_num + 1,
        false,
    );
    let r = pick_wdl(&moves, &results);
    proof {
        let ms = board.moves(color);
        let rs = results@;
        assert(root_results(*board, color, rs, false));
        lemma_root_facts(*board, color, false);
        lemma_best_value(*board, color, ms, false);
        if holds(rs, 1) {
            let k = choose|k: int| first_with(rs, 1, k) && r == (move_of(ms[k]), Some(1i32));
            assert(child_value(*board, color, ms[k], false) == 1);
        } else if holds(rs, 0) {
            let k = choose|k: int| first_with(rs, 0, k) && r == (move_of(ms[k]), Some(0i32));
            assert(child_value(*board, color, ms[k], false) == 0);
        } else if all_done(rs) && rs.len() > 0 {
            assert forall|k: int| 0 <= k < ms.len() implies #[trigger] child_value(
                *board,
                color,
                ms[k],
                false,
            ) == -1 by {
                assert(rs[k] is Some);
                assert(rs[k] != Some(0i32) && rs[k] != Some(1i32));
            }
            assert(rs[0] is Some);
            let marked = Seq::new(ms.len(), |k: int| true);
            assert forall|k: int| 0 <= k < ms.len() && #[trigger] marked[k] implies -1
                >= child_value(*board, color, ms[k], false) by {}
            assert(marked[0]);
            assert(tracks_max(*board, color, ms, marked, -1, false));
            lemma_tracks_all(*board, color, marked, -1, false);
        }
    }
    r
}

/// The disc-difference search from the root, one parallel task per legal
/// square, under a budget of `assigned_time_ms` milliseconds: the results
/// are combined by `pick_exact`. So, when every search finishes, the result
/// is the first square of greatest disc difference, with the disc
/// difference that perfect play ends with; else it is `(GiveUp, None)`.
pub fn perfect_read(board: &Board, color: Color, assigned_time_ms: i32) -> (r: (Move, Option<i32>))
    requires
        board.wf(),
    ensures
        exists|rs: Seq<Option<i32>>| root_results(*board, color, rs, true) && exact_pick(
            board.moves(color),
            rs,
            r,
        ),
        r.1 is None ==> r.0 == Move::GiveUp,
        board.moves(color).len() == 0 ==> r == (Move::Pass, Some(-65i32)),
        board.moves(color).len() > 0 ==> (r.1 matches Some(v) ==> {
            &&& -64 <= v <= 64
            &&& v == game_value(*board, color, false, true)
            &&& exists|k: int|
                0 <= k < board.moves(color).len() && r.0 == move_of(board.moves(color)[k]) && v
                    == child_value(*board, color, board.moves(color)[k], true)
        }),
{
    let moves = board.valid_moves(color);
    let start_time = Instant::now();
    proof {
        lemma_root_facts(*board, color, true);
    }
    let results = solve_roots(board, color, &moves, &start_time, assigned_time_ms, 0, true);
    let r = pick_exact(&moves, &results);
    proof {
        let ms = board.moves(color);
        let rs = results@;
        assert(root_results(*board, color, rs, true));
        if all_done(rs) && rs.len() > 0 {
            let k = choose|k: int| first_max(rs, k) && r == (move_of(ms[k]), rs[k]);
            let v = rs[k]->0;
            let marked = Seq::new(ms.len(), |j: int| true);
            assert forall|j: int| 0 <= j < ms.len() && #[trigger] marked[j] implies v
                >= child_value(*board, color, ms[j], true) by {
                assert(rs[j] is Some);
            }
            assert(rs[k] is Some);
            assert(marked[k]);
            assert(tracks_max(*board, color, ms, marked, v as int, true));
            lemma_tracks_all(*board, color, marked, v as int, true);
        }
    }
    r
}

} // verus!
