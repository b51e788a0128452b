//! An evolvable neural network in genotype and phenotype form, and a
//! tic-tac-toe board to evaluate it against.
pub mod evaluation;
pub mod genotype;
pub mod phenotype;
pub mod tictactoe;
