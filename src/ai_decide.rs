use vstd::prelude::*;
use crate::bit_othello::{Board, move_of, lemma_move_of_valid};
use crate::use_book::{Book, book_lookup, history_key, history_on_board};
use crate::proto::{Color, Move, is_player};
use crate::monte::{self, MonteNode};
use crate::depth_first_search::{self, root_results, wdl_pick, exact_pick};

verus! {

/// Time budget of one decision, in milliseconds.
pub const TIME_TO_DECIDE: i32 = 1400;

/// Up to this many stones, the tree search decides.
pub const TREE_SEARCH_MAX_STONES: u64 = 42;

/// From this many stones on, the disc-difference search runs too.
pub const PERFECT_READ_MIN_STONES: u64 = 46;

/// What `endgame_choice` returns.
pub open spec fn endgame_spec(stone_sum: int, wdl: (Move, Option<i32>), perfect: (Move, Option<i32>)) -> Option<Move> {
    if wdl.1 is None {
        None
    } else if stone_sum >= PERFECT_READ_MIN_STONES && perfect.1 is Some {
        Some(perfect.0)
    } else if wdl.1 == Some(-1i32) {
        None
    } else {
        Some(wdl.0)
    }
}

/// A result that the win/draw/loss root search may return on `b` for `c`.
pub open spec fn wdl_outcome(b: Board, c: Color, r: (Move, Option<i32>)) -> bool {
    exists|rs: Seq<Option<i32>>| root_results(b, c, rs, false) && wdl_pick(b.moves(c), rs, r)
}

/// A result that the disc-difference root search may return on `b` for `c`.
pub open spec fn exact_outcome(b: Board, c: Color, r: (Move, Option<i32>)) -> bool {
    exists|rs: Seq<Option<i32>>| root_results(b, c, rs, true) && exact_pick(b.moves(c), rs, r)
}

/// The endgame's choice from the results of the win/draw/loss search
/// (`wdl`) and of the disc-difference search (`perfect`, asked for only
/// from `PERFECT_READ_MIN_STONES` stones on): `None` hands the decision to
/// the tree search. An unknown outcome, or a proven loss without a
/// disc-difference result, goes to the tree search; otherwise the
/// disc-difference result is preferred when there is one, and the
/// win/draw/loss move is played when there is not.
pub fn endgame_choice(stone_sum: u64, wdl: (Move, Option<i32>), perfect: (Move, Option<i32>)) -> (r:
    Option<Move>)
    ensures
        r == endgame_spec(stone_sum as int, wdl, perfect),
{
    let (mv, max_eval) = wdl;
    if max_eval.is_none() {
        None
    } else if max_eval == Some(-1) {
        let (mv_second, max_eval_second) = if stone_sum >= PERFECT_READ_MIN_STONES {
            perfect
        } else {
            (Move::GiveUp, None)
        };
        if max_eval_second.is_none() {
            None
        } else {
            Some(mv_second)
        }
    } else {
        let (mv_second, max_eval_second) = if stone_sum >= PERFECT_READ_MIN_STONES {
            perfect
        } else {
            (Move::GiveUp, None)
        };
        if max_eval_second.is_none() {
            Some(mv)
        } else {
            Some(mv_second)
        }
    }
}

/// The move of `player_color`, decided without the tree search where the
/// policy allows: a pass with no legal square; the only legal square; the
/// book's suggestion when it is a valid move; from more than
/// `TREE_SEARCH_MAX_STONES` stones on, the endgame searches under a budget
/// of `time_to_decide` milliseconds. `None` hands the decision to the tree
/// search, and comes only with two legal squares or more. A move returned
/// is always valid, so never a resignation.
pub fn plan(
    board: &Board,
    player_color: Color,
    kihu: &Vec<Move>,
    book_dict: &Book,
    time_to_decide: i32,
) -> (r: Option<Move>)
    requires
        board.wf(),
        book_dict.wf(),
        history_on_board(kihu@),
    ensures
        r matches Some(m) ==> board.is_valid(m, player_color),
        r is None ==> board.moves(player_color).len() >= 2,
        board.moves(player_color).len() == 0 ==> r == Some(Move::Pass),
        board.moves(player_color).len() == 1 ==> r == Some(move_of(board.moves(player_color)[0])),
        board.moves(player_color).len() >= 2 ==> ({
            let hint = book_lookup(book_dict.table(), history_key(kihu@));
            if hint matches Some(b) && board.is_valid(b, player_color) {
                r == hint
            } else if board.stone_sum() <= TREE_SEARCH_MAX_STONES {
                r is None
            } else {
                exists|a: (Move, Option<i32>), p: (Move, Option<i32>)|
                    wdl_outcome(*board, player_color, a) && (p == (Move::GiveUp, None::<i32>)
                        || exact_outcome(*board, player_color, p)) && r == endgame_spec(
                        board.stone_sum(),
                        a,
                        p,
                    )
            }
        }),
{
    let moves = board.valid_moves(player_color);
    if moves.len() == 0 {
        Some(Move::Pass)
    } else if moves.len() == 1 {
        proof {
            lemma_move_of_valid(*board, player_color, 0);
        }
        Some(Move::Mv { x_ah: moves[0].0 as u32, y_18: moves[0].1 as u32 })
    } else {
        let hint = crate::use_book::decide(kihu, book_dict);
        if let Some(mv) = hint {
            if board.check_valid_move(mv, player_color) {
                return Some(mv);
            }
        }
        let stone_sum = board.sum_stones();
        if stone_sum <= TREE_SEARCH_MAX_STONES {
            None
        } else {
            let wdl = depth_first_search::decide(board, player_color, time_to_decide);
            let perfect = if stone_sum >= PERFECT_READ_MIN_STONES && wdl.1.is_some() {
                depth_first_search::perfect_read(board, player_color, time_to_decide)
            } else {
                (Move::GiveUp, None)
            };
            let r = endgame_choice(stone_sum, wdl, perfect);
            proof {
                assert(wdl_outcome(*board, player_color, wdl));
                assert(perfect == (Move::GiveUp, None::<i32>) || exact_outcome(*board, player_color, perfect));
                if let Some(v) = wdl.1 {
                    let k = choose|k: int|
                        0 <= k < board.moves(player_color).len() && wdl.0 == move_of(
                            board.moves(player_color)[k],
                        ) && v == depth_first_search::child_value(
                            *board,
                            player_color,
                            board.moves(player_color)[k],
                            false,
                        );
                    lemma_move_of_valid(*board, player_color, k);
                }
                if let Some(v) = perfect.1 {
                    let k = choose|k: int|
                        0 <= k < board.moves(player_color).len() && perfect.0 == move_of(
                            board.moves(player_color)[k],
                        ) && v == depth_first_search::child_value(
                            *board,
                            player_color,
                            board.moves(player_color)[k],
                            true,
                        );
                    lemma_move_of_valid(*board, player_color, k);
                }
            }
            r
        }
    }
}

/// The agent's move for `player_color`: the policy of `plan` under a budget
/// of `TIME_TO_DECIDE` milliseconds, and the tree search, descending by
/// `select`, where `plan` leaves the choice to it. The move is always valid
/// for `player_color` on `board`, so never a resignation.
pub fn decide<F: Fn(&MonteNode) -> usize>(
    board: &Board,
    player_color: Color,
    kihu: &Vec<Move>,
    book_dict: &Book,
    select: &F,
) -> (r: Move)
    requires
        board.wf(),
        book_dict.wf(),
        history_on_board(kihu@),
        is_player(player_color),
        forall|n: &MonteNode| #[trigger] select.requires((n,)),
    ensures
        board.is_valid(r, player_color),
        r != Move::GiveUp,
        plan_outcome(board, player_color, kihu, book_dict, r),
{
    let planned = plan(board, player_color, kihu, book_dict, TIME_TO_DECIDE);
    let r = match planned {
        Some(mv) => mv,
        None => monte::decide(board, player_color, TIME_TO_DECIDE, select),
    };
    proof {
        let hint = book_lookup(book_dict.table(), history_key(kihu@));
        if board.moves(player_color).len() >= 2 && !(hint matches Some(b) && board.is_valid(
            b,
            player_color,
        )) && board.stone_sum() > TREE_SEARCH_MAX_STONES {
            let (a, p) = choose|a: (Move, Option<i32>), p: (Move, Option<i32>)|
                wdl_outcome(*board, player_color, a) && (p == (Move::GiveUp, None::<i32>)
                    || exact_outcome(*board, player_color, p)) && planned == endgame_spec(
                    board.stone_sum(),
                    a,
                    p,
                );
            assert(wdl_outcome(*board, player_color, a) && (p == (Move::GiveUp, None::<i32>)
                || exact_outcome(*board, player_color, p)) && (endgame_spec(
                board.stone_sum(),
                a,
                p,
            ) matches Some(m) ==> r == m));
        }
    }
    r
}

/// What `plan` fixes of the agent's move: a pass without legal squares,
/// the only legal square, or a valid book suggestion; from more than
/// `TREE_SEARCH_MAX_STONES` stones on, the endgame's choice whenever it makes
/// one (the tree search decides otherwise).
pub open spec fn plan_outcome(
    board: &Board,
    player_color: Color,
    kihu: &Vec<Move>,
    book_dict: &Book,
    r: Move,
) -> bool {
    &&& board.moves(player_color).len() == 0 ==> r == Move::Pass
    &&& board.moves(player_color).len() == 1 ==> r == move_of(board.moves(player_color)[0])
    &&& board.moves(player_color).len() >= 2 ==> ({
        let hint = book_lookup(book_dict.table(), history_key(kihu@));
        if hint matches Some(b) && board.is_valid(b, player_color) {
            hint == Some(r)
        } else {
            board.stone_sum() > TREE_SEARCH_MAX_STONES ==> exists|
                a: (Move, Option<i32>),
                p: (Move, Option<i32>),
            |
                #![trigger endgame_spec(board.stone_sum(), a, p)]
                wdl_outcome(*board, player_color, a) && (p == (Move::GiveUp, None::<i32>)
                    || exact_outcome(*board, player_color, p)) && (endgame_spec(
                    board.stone_sum(),
                    a,
                    p,
                ) matches Some(m) ==> r == m)
        }
    })
}
} // verus!
