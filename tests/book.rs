use reversi_core::use_book::{decide, initialize_book_dict, Book};
use reversi_core::proto::Move;

#[test]
fn test_initialize_book_dict() {
    let data = "F5:D6\nF5D6:C3\nF5D6C3D3C4F4F6F3E6E7D7C5B6D8C6C7B5B4A3A4E3G4G5G6C8B3A5:H3\nbad line\n";
    let book_dict = initialize_book_dict(data);
    let len_dict = book_dict.len();
    let mut count = 0;
    for i in 0..len_dict {
        let (key, value) = book_dict.entry(i);
        if key.len() == 54 {
            println!("{}:{}", key, value);
            count += 1;
        }
    }
    println!("count: {}", count);
    println!("len: {}", len_dict);
    assert_eq!(count, 1);
    assert_eq!(len_dict, 3);
    let move_list = vec![Move::Mv { x_ah: 4, y_18: 3 }];
    let next_move = decide(&move_list, &book_dict);
    println!("{:?}", next_move);
    // D3 is F5 under the anti-diagonal mirror, which takes D6 to C5
    assert_eq!(next_move, Some(Move::Mv { x_ah: 3, y_18: 5 }));
}

#[test]
fn book_hit_under_rotation() {
    let book = initialize_book_dict("F5:D6");
    let f5 = vec![Move::Mv { x_ah: 6, y_18: 5 }];
    assert_eq!(decide(&f5, &book), Some(Move::Mv { x_ah: 4, y_18: 6 }));
    // C4 is F5 under the half turn; D6 turns to E3
    let c4 = vec![Move::Mv { x_ah: 3, y_18: 4 }];
    assert_eq!(decide(&c4, &book), Some(Move::Mv { x_ah: 5, y_18: 3 }));
}

#[test]
fn rotated_history_gives_rotated_suggestion() {
    let book = initialize_book_dict("F5D6:C3\n");
    let h = vec![Move::Mv { x_ah: 6, y_18: 5 }, Move::Mv { x_ah: 4, y_18: 6 }];
    assert_eq!(decide(&h, &book), Some(Move::Mv { x_ah: 3, y_18: 3 }));
    // under (x, y) -> (9 - y, 9 - x): F5 -> D3, D6 -> C5, C3 -> F6
    let r1 = vec![Move::Mv { x_ah: 4, y_18: 3 }, Move::Mv { x_ah: 3, y_18: 5 }];
    assert_eq!(decide(&r1, &book), Some(Move::Mv { x_ah: 6, y_18: 6 }));
    // under (x, y) -> (y, x): F5 -> E6, D6 -> F4, C3 -> C3
    let r3 = vec![Move::Mv { x_ah: 5, y_18: 6 }, Move::Mv { x_ah: 6, y_18: 4 }];
    assert_eq!(decide(&r3, &book), Some(Move::Mv { x_ah: 3, y_18: 3 }));
}

#[test]
fn book_miss_and_passes() {
    let book = initialize_book_dict("F5:D6\n");
    let miss = vec![Move::Mv { x_ah: 1, y_18: 1 }];
    assert_eq!(decide(&miss, &book), None);
    // a pass adds nothing to the key
    let with_pass = vec![Move::Pass, Move::Mv { x_ah: 6, y_18: 5 }, Move::GiveUp];
    assert_eq!(decide(&with_pass, &book), Some(Move::Mv { x_ah: 4, y_18: 6 }));
    let empty = Book::new();
    assert_eq!(decide(&vec![], &empty), None);
}

#[test]
fn last_rotation_wins() {
    // the empty history is held under every rotation; the diagonal mirror is tried last
    let book = initialize_book_dict(":F5\n");
    assert_eq!(decide(&vec![], &book), Some(Move::Mv { x_ah: 5, y_18: 6 }));
}

#[test]
fn malformed_lines_are_skipped() {
    let book = initialize_book_dict("F5:D6:C3\nF5\nF5:Z9\nF5:D\nC4:E3\n\n");
    assert_eq!(book.len(), 1);
    assert_eq!(book.get(&String::from("C4")), Some(String::from("E3")));
    assert_eq!(book.get(&String::from("F5")), None);
}

#[test]
fn later_line_replaces_earlier() {
    let book = initialize_book_dict("F5:D6\nF5:F6\n");
    assert_eq!(book.get(&String::from("F5")), Some(String::from("F6")));
    let mut b = Book::new();
    b.insert(String::from("C4"), String::from("C3"));
    b.insert(String::from("C4"), String::from("E3"));
    assert_eq!(b.get(&String::from("C4")), Some(String::from("E3")));
    assert_eq!(b.get(&String::from("D3")), None);
}

#[test]
fn keys_must_be_square_names() {
    let book = initialize_book_dict("F:D6\nZ9:D6\nf5:D6\nF5D:C3\nF5D6:C3\n");
    assert_eq!(book.len(), 1);
    assert_eq!(book.get(&String::from("F5D6")), Some(String::from("C3")));
}
