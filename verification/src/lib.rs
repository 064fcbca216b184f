pub mod attacks;
pub mod basic_eval;
pub mod board;
pub mod chess_board;
pub mod cozy_board;
pub mod eval_laws;
pub mod h_table;
pub mod layers;
pub mod model;
pub mod nnue;
pub mod nnue_laws;
pub mod normal;
pub mod tapered;
pub mod time;
