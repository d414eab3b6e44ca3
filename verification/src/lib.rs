//! Finds every dictionary word that can be traced through a rectangular
//! grid of letters, and builds boards that reach a target score.

pub mod boggle_board;
pub mod boggle_board_solver;
pub mod boggle_dfs;
pub mod builder;
pub mod dictionary;
pub mod genetic_boggle_maker;
pub mod histogram;
pub mod laws;
pub mod scoring;
pub mod search_model;
pub mod simple_genetic_boggle_maker;
pub mod total_boggle_score_calculator;
pub mod visitor;

pub use boggle_board::Board;
pub use boggle_board_solver::{BoggleBoardResult, BoggleBoardSolver};
pub use builder::BoggleBuilder;
pub use boggle_dfs::{BoggleDfs, BoggleDfsContext, BoggleError, WordVisitor};
