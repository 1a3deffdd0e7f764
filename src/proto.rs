use vstd::prelude::*;
use crate::use_book::{square_name, push_char, push_str};

verus! {

/// A side of the game. `Blank` and `Sentinel` stand for "no stone" in
/// display contexts and are never handed to the engines.
#[derive(Debug, PartialEq, Eq, Structural, Copy, Clone)]
pub enum Color {
    Blank,
    White,
    Black,
    Sentinel,
}

/// The other side; the identity on the auxiliary variants.
pub open spec fn opposite_of(c: Color) -> Color {
    match c {
        Color::White => Color::Black,
        Color::Black => Color::White,
        _ => c,
    }
}

/// A side that can move: black or white.
pub open spec fn is_player(c: Color) -> bool {
    c == Color::Black || c == Color::White
}

impl Color {
    pub fn opposite(self) -> (r: Self)
        ensures
            r == opposite_of(self),
    {
        match self {
            Self::White => Self::Black,
            Self::Black => Self::White,
            _ => self,
        }
    }
}

/// Outcome of a finished game, from the receiver's side.
#[derive(Debug, PartialEq, Eq, Structural, Clone, Copy)]
pub enum Wl {
    Win,
    Lose,
    Tie,
}

/// A move: a square (file A..H as 1..8, rank 1..8), a pass, or a resignation.
#[derive(Debug, PartialEq, Eq, Structural, Clone, Copy)]
pub enum Move {
    Mv { x_ah: u32, y_18: u32 },
    Pass,
    GiveUp,
}

/// A move as the wire writes it: `PASS`, `GIVEUP`, or a square name.
pub open spec fn move_text(m: Move) -> Seq<char> {
    match m {
        Move::Mv { x_ah, y_18 } => square_name(x_ah as int, y_18 as int),
        Move::Pass => seq!['P', 'A', 'S', 'S'],
        Move::GiveUp => seq!['G', 'I', 'V', 'E', 'U', 'P'],
    }
}

impl Move {
    /// The wire text of the move.
    pub fn to_string(&self) -> (r: String)
        requires
            *self matches Move::Mv { x_ah, y_18 } ==> 1 <= x_ah <= 8 && 1 <= y_18 <= 8,
        ensures
            r@ == move_text(*self),
    {
        let mut r = String::new();
        match *self {
            Move::Pass => {
                push_char(&mut r, 'P');
                push_char(&mut r, 'A');
                push_char(&mut r, 'S');
                push_char(&mut r, 'S');
            },
            Move::GiveUp => {
                push_char(&mut r, 'G');
                push_char(&mut r, 'I');
                push_char(&mut r, 'V');
                push_char(&mut r, 'E');
                push_char(&mut r, 'U');
                push_char(&mut r, 'P');
            },
            Move::Mv { x_ah, y_18 } => {
                let cx = (('A' as u8) + (x_ah as u8) - 1) as char;
                let cy = (('1' as u8) + (y_18 as u8) - 1) as char;
                push_char(&mut r, cx);
                push_char(&mut r, cy);
            },
        }
        r
    }
}

impl Color {
    /// The name of the color.
    pub fn to_string(&self) -> (r: String)
        ensures
            r@ == match *self {
                Color::Blank => seq!['N', 'o', 'n', 'e'],
                Color::White => seq!['W', 'h', 'i', 't', 'e'],
                Color::Black => seq!['B', 'l', 'a', 'c', 'k'],
                Color::Sentinel => seq!['S', 'e', 'n', 't', 'i', 'n', 'e', 'l'],
            },
    {
        let mut r = String::new();
        let text: &str = match *self {
            Color::Blank => "None",
            Color::White => "White",
            Color::Black => "Black",
            Color::Sentinel => "Sentinel",
        };
        proof {
            reveal_strlit("None");
            reveal_strlit("White");
            reveal_strlit("Black");
            reveal_strlit("Sentinel");
        }
        push_str(&mut r, text);
        r
    }
}

/// A command sent to the server.
pub enum SendCommand<'a> {
    Open { player_name: &'a str },
    Move(Move),
}

impl<'a> SendCommand<'a> {
    /// The wire line of the command, newline included.
    pub fn to_string(&self) -> (r: String)
        requires
            *self matches SendCommand::Move(Move::Mv { x_ah, y_18 }) ==> 1 <= x_ah <= 8 && 1 <= y_18
                <= 8,
        ensures
            r@ == match *self {
                SendCommand::Open { player_name } => seq!['O', 'P', 'E', 'N', ' '] + player_name@
                    + seq!['\n'],
                SendCommand::Move(m) => seq!['M', 'O', 'V', 'E', ' '] + move_text(m) + seq!['\n'],
            },
    {
        let mut r = String::new();
        match self {
            SendCommand::Open { player_name } => {
                push_str(&mut r, "OPEN ");
                push_str(&mut r, player_name);
            },
            SendCommand::Move(m) => {
                push_str(&mut r, "MOVE ");
                let t = m.to_string();
                push_str(&mut r, t.as_str());
            },
        }
        push_char(&mut r, '\n');
        proof {
            reveal_strlit("OPEN ");
            reveal_strlit("MOVE ");
        }
        r
    }
}

/// A command received from the server.
#[derive(Debug, PartialEq)]
pub enum RecvCommand {
    Start { color: Color, opponent_name: String, assigned_time_ms: i32 },
    Move(Move),
    Ack { assigned_time_ms: i32 },
    End { result: Wl, your_stone_count: u32, opponent_stone_count: u32, reason: String },
    Bye { stat: Vec<PlayerStat> },
}

/// One player's line in the final scores.
#[derive(Debug, PartialEq, Clone)]
pub struct PlayerStat {
    pub player_name: String,
    pub score: i32,
    pub wins: u32,
    pub loses: u32,
}

} // verus!
