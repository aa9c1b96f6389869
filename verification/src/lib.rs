//! A verified engine for m,n,k-in-a-row board games (the tic-tac-toe /
//! gomoku family) played by Monte-Carlo Tree Search.
//!
//! `board` holds the game state and its rules: incremental win detection,
//! legal-action bookkeeping, move-string parsing and feature encoding.
//! `mcts` holds the search tree: node statistics, the selection formula,
//! expansion, evaluation and backpropagation.
//! `sets` and `utils` hold the thin trusted layer over the order-preserving
//! set and the uniform-random source that the engine relies on.
pub mod board;
pub mod mcts;
pub mod sets;
pub mod utils;
