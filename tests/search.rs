use reversi_core::depth_first_search::{pick_exact, pick_wdl};
use reversi_core::bit_othello::get_corner_list;
use reversi_core::monte::rollout_pick;
use reversi_core::bit_othello::Board;
use reversi_core::ai_decide::{self, endgame_choice, plan, TIME_TO_DECIDE};
use reversi_core::use_book::{initialize_book_dict, Book};
use reversi_core::monte::{self, best_root_move, calc_max_depth, rollout, speedy_decide, MonteNode};
use reversi_core::proto::{Color, Move};
use reversi_core::depth_first_search::{calc_by_dfs, decide, perfect_read, perfect_read_dfs};

fn sq(x: u32, y: u32) -> u64 {
    1u64 << ((x - 1) * 8 + y - 1)
}

/// A tree policy that visits the least visited child, the last on a tie.
fn least_visited_last(n: &MonteNode) -> usize {
    let mut best = 0;
    for (i, c) in n.children.iter().enumerate() {
        if c.visits <= n.children[best].visits {
            best = i;
        }
    }
    best
}

/// 62 stones: A1 and A2 empty, white only on A3; black wins by A2.
fn near_full() -> Board {
    let white = sq(1, 3);
    let black = !(sq(1, 1) | sq(1, 2) | white);
    Board { black, white }
}

/// Plays the first legal square for each side from the start until
/// `stones` stones are down.
fn opening_line(stones: u64) -> (Board, Color) {
    line_with(stones, 0)
}

/// Plays legal square number `k` (modulo their count) for each side from
/// the start until `stones` stones are down.
fn line_with(stones: u64, k: usize) -> (Board, Color) {
    let mut b = Board::new();
    let mut c = Color::Black;
    let mut passes = 0;
    while b.sum_stones() < stones && passes < 2 {
        let moves = b.valid_moves(c);
        let pick = if moves.is_empty() { None } else { Some(moves[k % moves.len()]) };
        if let Some((x, y)) = pick {
            b.do_move(Move::Mv { x_ah: x as u32, y_18: y as u32 }, c);
            passes = 0;
        } else {
            passes += 1;
        }
        c = c.opposite();
    }
    (b, c)
}

#[test]
fn endgame_forced_win() {
    let b = near_full();
    assert_eq!(b.sum_stones(), 62);
    assert_eq!(b.valid_moves(Color::Black), vec![(1, 2)]);
    let (mv, v) = decide(&b, Color::Black, 10_000);
    assert_eq!(mv, Move::Mv { x_ah: 1, y_18: 2 });
    assert_eq!(v, Some(1));
    let (mv2, v2) = perfect_read(&b, Color::Black, 10_000);
    assert_eq!(mv2, Move::Mv { x_ah: 1, y_18: 2 });
    assert_eq!(v2, Some(63));
}

#[test]
fn endgame_single_winning_square() {
    // white to move with A1 and A2 empty: only A2 is legal, and it flips A3..A7
    let black = sq(1, 3) | sq(1, 4) | sq(1, 5) | sq(1, 6) | sq(1, 7);
    let white = !(sq(1, 1) | sq(1, 2) | black);
    let b = Board { black, white };
    let moves = b.valid_moves(Color::White);
    assert_eq!(moves, vec![(1, 2)]);
    let (mv, v) = decide(&b, Color::White, 10_000);
    assert_eq!(mv, Move::Mv { x_ah: 1, y_18: 2 });
    assert_eq!(v, Some(1));
}

#[test]
fn search_values_in_range() {
    let (b, c) = opening_line(58);
    let start = std::time::Instant::now();
    let v = calc_by_dfs(&b, c, None, &start, 5_000, b.sum_stones());
    if let Some(v) = v {
        assert!((-1..=1).contains(&v));
    }
    let start = std::time::Instant::now();
    let d = perfect_read_dfs(&b, c, None, &start, 5_000);
    if let Some(d) = d {
        assert!((-64..=64).contains(&d));
        if let Some(v) = v {
            assert_eq!(v, d.signum());
        }
    }
    let (mv, w) = decide(&b, c, 5_000);
    if let Some(w) = w {
        assert!((-1..=1).contains(&w));
        assert!(b.check_valid_move(mv, c));
    } else {
        assert_eq!(mv, Move::GiveUp);
    }
}

#[test]
fn terminal_leaf_values() {
    let black: u64 = (1u64 << 35) - 1;
    let b = Board { black, white: !black };
    let start = std::time::Instant::now();
    assert_eq!(calc_by_dfs(&b, Color::Black, Some(Move::Pass), &start, 1000, 64), Some(1));
    assert_eq!(calc_by_dfs(&b, Color::White, None, &start, 1000, 64), Some(-1));
    assert_eq!(perfect_read_dfs(&b, Color::Black, Some(Move::Pass), &start, 1000), Some(6));
    assert_eq!(perfect_read_dfs(&b, Color::White, None, &start, 1000), Some(-6));
    assert_eq!(decide(&b, Color::Black, 1000), (Move::Pass, Some(-64)));
    assert_eq!(perfect_read(&b, Color::Black, 1000), (Move::Pass, Some(-65)));
}

#[test]
fn deadline_falls_back_to_tree_search() {
    let (b, c) = (0..8)
        .map(|k| line_with(43, k))
        .find(|(b, c)| b.sum_stones() == 43 && b.valid_moves(*c).len() >= 2)
        .expect("a 43-stone position with two legal squares");
    let (mv, v) = decide(&b, c, 1);
    if v.is_none() {
        assert_eq!(mv, Move::GiveUp);
    }
    let book = Book::new();
    let moves = b.valid_moves(c);
    assert!(moves.len() >= 2);
    let planned = plan(&b, c, &vec![], &book, 1);
    match planned {
        Some(m) => {
            assert!(b.check_valid_move(m, c));
            assert_ne!(m, Move::GiveUp);
        }
        None => {
            let m = monte::decide(&b, c, 100, &least_visited_last);
            assert!(b.check_valid_move(m, c));
            assert_ne!(m, Move::GiveUp);
        }
    }
}

#[test]
fn opening_goes_to_tree_search() {
    let b = Board::new();
    let book = Book::new();
    assert_eq!(plan(&b, Color::Black, &vec![], &book, TIME_TO_DECIDE), None);
    let m = monte::decide(&b, Color::Black, 100, &least_visited_last);
    assert!([(3, 4), (4, 3), (5, 6), (6, 5)]
        .iter()
        .any(|&(x, y)| m == Move::Mv { x_ah: x, y_18: y }));
    let mut root = MonteNode::new(b, Color::Black, None, 4);
    root.expand();
    assert_eq!(root.children.len(), 4);
    let visits = vec![3, 9, 9, 1];
    assert_eq!(best_root_move(&b, Color::Black, &visits), Move::Mv { x_ah: 4, y_18: 3 });
    let m = best_root_move(&b, Color::Black, &vec![0, 0, 0, 0]);
    assert!([(3, 4), (4, 3), (5, 6), (6, 5)]
        .iter()
        .any(|&(x, y)| m == Move::Mv { x_ah: x, y_18: y }));
}

#[test]
fn single_move_is_played() {
    let b = Board { black: sq(5, 4), white: sq(4, 4) };
    assert_eq!(b.valid_moves(Color::Black), vec![(3, 4)]);
    let book = initialize_book_dict("F5:D6\n");
    assert_eq!(plan(&b, Color::Black, &vec![], &book, TIME_TO_DECIDE), Some(Move::Mv { x_ah: 3, y_18: 4 }));
}

#[test]
fn no_move_passes() {
    let black: u64 = (1u64 << 35) - 1;
    let b = Board { black, white: !black };
    assert_eq!(plan(&b, Color::White, &vec![], &Book::new(), TIME_TO_DECIDE), Some(Move::Pass));
}

#[test]
fn valid_book_move_is_played() {
    let mut b = Board::new();
    b.do_move(Move::Mv { x_ah: 6, y_18: 5 }, Color::Black);
    let book = initialize_book_dict("F5:D6\n");
    let kihu = vec![Move::Mv { x_ah: 6, y_18: 5 }];
    assert_eq!(plan(&b, Color::White, &kihu, &book, TIME_TO_DECIDE), Some(Move::Mv { x_ah: 4, y_18: 6 }));
    // an illegal suggestion is ignored
    let bad = initialize_book_dict("F5:A1\n");
    assert_eq!(plan(&b, Color::White, &kihu, &bad, TIME_TO_DECIDE), None);
}

#[test]
fn endgame_choices() {
    let a = Move::Mv { x_ah: 1, y_18: 1 };
    let p = Move::Mv { x_ah: 2, y_18: 2 };
    assert_eq!(endgame_choice(50, (Move::GiveUp, None), (p, Some(3))), None);
    assert_eq!(endgame_choice(50, (a, Some(-1)), (p, Some(-3))), Some(p));
    assert_eq!(endgame_choice(50, (a, Some(-1)), (Move::GiveUp, None)), None);
    assert_eq!(endgame_choice(44, (a, Some(-1)), (p, Some(-3))), None);
    assert_eq!(endgame_choice(50, (a, Some(1)), (p, Some(5))), Some(p));
    assert_eq!(endgame_choice(50, (a, Some(0)), (Move::GiveUp, None)), Some(a));
    assert_eq!(endgame_choice(44, (a, Some(1)), (p, Some(5))), Some(a));
}

#[test]
fn endgame_plan_is_valid() {
    let b = near_full();
    let planned = plan(&b, Color::Black, &vec![], &Book::new(), TIME_TO_DECIDE);
    assert_eq!(planned, Some(Move::Mv { x_ah: 1, y_18: 2 }));
    let (b2, c2) = opening_line(50);
    if let Some(m) = plan(&b2, c2, &vec![], &Book::new(), 200) {
        assert!(b2.check_valid_move(m, c2));
    }
}

#[test]
fn expand_and_playouts() {
    let b = Board::new();
    let mut root = MonteNode::new(b, Color::Black, None, 4);
    assert_eq!(root.canput_diff, 0);
    root.expand();
    assert!(root.is_expanded);
    let firsts: Vec<Option<Move>> = root.children.iter().map(|c| c.prev_move).collect();
    assert_eq!(
        firsts,
        vec![
            Some(Move::Mv { x_ah: 3, y_18: 4 }),
            Some(Move::Mv { x_ah: 4, y_18: 3 }),
            Some(Move::Mv { x_ah: 5, y_18: 6 }),
            Some(Move::Mv { x_ah: 6, y_18: 5 }),
        ]
    );
    for child in &root.children {
        assert_eq!(child.stone_sum, 5);
        assert_eq!(child.color, Color::White);
        assert_eq!(child.board.sum_stones(), 5);
    }
    assert_eq!(calc_max_depth(&root), 2);
    root.add(1, -2);
    root.add(-1, 5);
    assert_eq!((root.wins, root.visits, root.mobility), (0, 2, 3));
    let end = rollout(&b, Color::Black);
    assert!(end.valid_moves(Color::Black).is_empty());
    assert!(end.valid_moves(Color::White).is_empty());
    assert_eq!(end.black & end.white, 0);
}

#[test]
fn expand_with_no_move() {
    let black: u64 = (1u64 << 35) - 1;
    let b = Board { black, white: !black };
    let mut node = MonteNode::new(b, Color::Black, None, 64);
    node.expand();
    assert_eq!(node.children.len(), 1);
    assert_eq!(node.children[0].prev_move, Some(Move::Pass));
    assert!(node.children[0].prev_is_skip);
    assert_eq!(node.children[0].color, Color::White);
    let mut child = MonteNode::new(b, Color::White, Some(Move::Pass), 64);
    child.prev_is_skip = true;
    child.expand();
    assert!(child.is_game_end);
    assert!(child.children.is_empty());
}

#[test]
fn speedy_takes_first_best() {
    let b = Board::new();
    // every opening move leaves the same mobility difference
    assert_eq!(speedy_decide(&b, Color::Black), (3, 4));
}

#[test]
fn playouts_record_statistics() {
    let b = Board::new();
    let mut root = MonteNode::new(b, Color::Black, None, 4);
    root.expand();
    for _ in 0..40 {
        let (w, m) = root.play_out(&least_visited_last);
        assert!((-1..=1).contains(&w));
        assert!((-64..=64).contains(&m));
    }
    assert_eq!(root.visits, 40);
    let child_visits: i32 = root.children.iter().map(|c| c.visits).sum();
    assert_eq!(child_visits, 40);
    // a child past the threshold has been expanded
    assert!(root.children.iter().any(|c| c.is_expanded));
    assert!(calc_max_depth(&root) >= 3);
    // an out-of-range choice descends into the first child
    let before = root.children[0].visits;
    root.play_out(&|_n: &MonteNode| 99usize);
    assert_eq!(root.children[0].visits, before + 1);
}

#[test]
fn dispatch_always_returns_a_valid_move() {
    let book = initialize_book_dict("F5:D6\n");
    let cases = [
        (Board::new(), Color::Black, vec![]),
        (near_full(), Color::Black, vec![]),
        (Board { black: sq(5, 4), white: sq(4, 4) }, Color::Black, vec![]),
    ];
    for (b, c, kihu) in cases {
        let m = ai_decide::decide(&b, c, &kihu, &book, &least_visited_last);
        assert!(b.check_valid_move(m, c));
        assert_ne!(m, Move::GiveUp);
    }
    let black: u64 = (1u64 << 35) - 1;
    let full = Board { black, white: !black };
    assert_eq!(ai_decide::decide(&full, Color::White, &vec![], &book, &least_visited_last), Move::Pass);
}

#[test]
fn wdl_root_choice() {
    let ms = vec![(3, 4), (4, 3), (5, 6), (6, 5)];
    let c4 = Move::Mv { x_ah: 3, y_18: 4 };
    let d3 = Move::Mv { x_ah: 4, y_18: 3 };
    let e6 = Move::Mv { x_ah: 5, y_18: 6 };
    // the first proven win, even past an unfinished search
    assert_eq!(pick_wdl(&ms, &vec![Some(-1), None, Some(1), Some(1)]), (e6, Some(1)));
    // else the first draw
    assert_eq!(pick_wdl(&ms, &vec![Some(-1), Some(0), None, Some(0)]), (d3, Some(0)));
    // else an unfinished search gives up
    assert_eq!(pick_wdl(&ms, &vec![Some(-1), None, Some(-1), Some(-1)]), (Move::GiveUp, None));
    // else every square loses: the first is played
    assert_eq!(pick_wdl(&ms, &vec![Some(-1); 4]), (c4, Some(-1)));
    assert_eq!(pick_wdl(&vec![], &vec![]), (Move::Pass, Some(-64)));
}

#[test]
fn exact_root_choice() {
    let ms = vec![(3, 4), (4, 3), (5, 6), (6, 5)];
    let d3 = Move::Mv { x_ah: 4, y_18: 3 };
    assert_eq!(pick_exact(&ms, &vec![Some(-3), Some(8), Some(2), Some(8)]), (d3, Some(8)));
    assert_eq!(pick_exact(&ms, &vec![Some(60), Some(8), None, Some(8)]), (Move::GiveUp, None));
    assert_eq!(pick_exact(&vec![], &vec![]), (Move::Pass, Some(-65)));
}

#[test]
fn rollout_policy_choice() {
    // black to move with a corner among its squares: white on B2, black on C3,
    // and white on G2 with black on F3
    let b = Board { black: sq(3, 3) | sq(6, 3), white: sq(2, 2) | sq(7, 2) };
    let moves = b.valid_moves(Color::Black);
    let corners = get_corner_list(&moves);
    assert_eq!(corners, vec![(1, 1), (8, 1)]);
    assert_eq!(rollout_pick(&b, Color::Black, &moves, &corners, true, 1, false, 0), (8, 1));
    assert_eq!(rollout_pick(&b, Color::Black, &moves, &corners, false, 0, false, 1), moves[1]);
    assert_eq!(
        rollout_pick(&b, Color::Black, &moves, &corners, false, 0, true, 0),
        speedy_decide(&b, Color::Black)
    );
    // a single legal square is always taken
    let one = Board { black: sq(5, 4), white: sq(4, 4) };
    let m1 = one.valid_moves(Color::Black);
    let c1 = get_corner_list(&m1);
    assert_eq!(rollout_pick(&one, Color::Black, &m1, &c1, false, 0, true, 0), (3, 4));
}

#[test]
fn finished_node_scores_its_sign() {
    let black: u64 = (1u64 << 35) - 1;
    let b = Board { black, white: !black };
    let mut node = MonteNode::new(b, Color::White, Some(Move::Pass), 64);
    node.prev_is_skip = true;
    node.expand();
    assert!(node.is_game_end);
    let r = node.play_out(&least_visited_last);
    assert_eq!(r, (-1, 0));
    assert_eq!((node.wins, node.visits, node.mobility), (-1, 1, 0));
    assert!(node.children.is_empty());
}

#[test]
fn children_count_their_stones() {
    let b = Board::new();
    let mut root = MonteNode::new(b, Color::Black, None, b.sum_stones());
    root.expand();
    for c in &root.children {
        assert_eq!(c.stone_sum, c.board.sum_stones());
    }
}
