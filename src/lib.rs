//! Decision core of an 8x8 Reversi agent: a bitboard engine, an opening
//! book, a Monte-Carlo tree search and an exhaustive endgame solver.

pub mod proto;
pub mod bit_othello;
pub mod use_book;
pub mod depth_first_search;
pub mod monte;
pub mod ai_decide;
pub mod command_parser;
