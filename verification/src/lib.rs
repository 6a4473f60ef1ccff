//! Discovery of mirror squares: grids of N equal-length symbol sequences in
//! which the sequence at row i, column j equals the symbol at row j, column i
//! (transpose symmetry), with a stronger variant requiring each row to be the
//! exact reversal of its opposite row. The classical example is the 5x5
//! "Sator Square" (SATOR AREPO TENET OPERA ROTAS).

pub mod dictionary;
pub mod order;
pub mod mirror;
pub mod phoneme;
pub mod search;
