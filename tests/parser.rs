use reversi_core::command_parser::parse;
use reversi_core::proto::{Color, Move, PlayerStat, RecvCommand, SendCommand, Wl};

#[test]
fn test_parse_recvs() {
    let res = parse("START BLACK alice 500000");
    assert!(res.is_ok(), "{res:?}");
    let res = parse("ACK  499995");
    assert!(res.is_ok(), "{res:?}");
    let res = parse("ACK  -100");
    assert!(res.is_ok(), "{res:?}");
    let res = parse("MOVE G7");
    assert!(res.is_ok(), "{res:?}");
    let res = parse("BYE Anon1 -4 0 4");
    assert!(res.is_ok(), "{res:?}");
    let res = parse("BYE Anon1 -4 0 4 Anon2 4 4 0");
    assert!(res.is_ok(), "{res:?}");
    let res = parse("END TIE 0 0 INVALID_COMMAND");
    assert!(res.is_ok(), "{res:?}");
}

#[test]
fn parsed_values() {
    assert_eq!(
        parse("START WHITE bob 60000\n"),
        Ok(RecvCommand::Start { color: Color::White, opponent_name: String::from("bob"), assigned_time_ms: 60000 })
    );
    assert_eq!(parse("ACK  -100"), Ok(RecvCommand::Ack { assigned_time_ms: -100 }));
    assert_eq!(parse("ACK +7"), Ok(RecvCommand::Ack { assigned_time_ms: 7 }));
    assert_eq!(parse("MOVE G7"), Ok(RecvCommand::Move(Move::Mv { x_ah: 7, y_18: 7 })));
    assert_eq!(parse("MOVE PASS"), Ok(RecvCommand::Move(Move::Pass)));
    assert_eq!(parse("MOVE GIVEUP"), Ok(RecvCommand::Move(Move::GiveUp)));
    assert_eq!(
        parse("END LOSE 20 44 DOUBLE_PASS"),
        Ok(RecvCommand::End {
            result: Wl::Lose,
            your_stone_count: 20,
            opponent_stone_count: 44,
            reason: String::from("DOUBLE_PASS"),
        })
    );
    assert_eq!(
        parse("BYE Anon1 -4 0 4 Anon2 4 4 0"),
        Ok(RecvCommand::Bye {
            stat: vec![
                PlayerStat { player_name: String::from("Anon1"), score: -4, wins: 0, loses: 4 },
                PlayerStat { player_name: String::from("Anon2"), score: 4, wins: 4, loses: 0 },
            ]
        })
    );
    assert_eq!(parse("BYE"), Ok(RecvCommand::Bye { stat: vec![] }));
}

#[test]
fn parse_errors() {
    assert_eq!(parse(""), Err(String::from("Empty command")));
    assert_eq!(parse("   \t"), Err(String::from("Empty command")));
    assert_eq!(parse("HELLO"), Err(String::from("Invalid command")));
    assert_eq!(parse("START RED x 1"), Err(String::from("Expected black/white, got `RED`")));
    assert_eq!(parse("START BLACK"), Err(String::from("Expected string, got EOF")));
    assert_eq!(parse("ACK x"), Err(String::from("Expected integer, got `x`")));
    assert_eq!(parse("ACK 99999999999"), Err(String::from("Expected integer, got `99999999999`")));
    assert_eq!(parse("END TIE -1 0 R"), Err(String::from("Expected unsigned integer, got `-1`")));
    assert_eq!(parse("MOVE I9"), Err(String::from("Expected move, got `I9`")));
    assert_eq!(parse("MOVE"), Err(String::from("Expected move, got EOF")));
    assert_eq!(parse("BYE Anon1 -4 0"), Err(String::from("Expected unsigned integer, got EOF")));
    assert!(parse("END DRAW 0 0 R").is_err());
}

#[test]
fn test_fmt_send_command() {
    assert_eq!(
        SendCommand::Open { player_name: "Anon." }.to_string(),
        "OPEN Anon.\n".to_string()
    );
    assert_eq!(
        SendCommand::Move(Move::Mv { x_ah: 3, y_18: 4 }).to_string(),
        "MOVE C4\n".to_string()
    );
}

#[test]
fn move_and_color_text() {
    assert_eq!(Move::Pass.to_string(), "PASS");
    assert_eq!(Move::GiveUp.to_string(), "GIVEUP");
    assert_eq!(Move::Mv { x_ah: 8, y_18: 1 }.to_string(), "H1");
    assert_eq!(Color::Black.to_string(), "Black");
    assert_eq!(Color::White.to_string(), "White");
    assert_eq!(SendCommand::Move(Move::Pass).to_string(), "MOVE PASS\n");
}
