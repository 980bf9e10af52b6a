pub mod grid_square;
pub mod missionaries_and_cannibals;
pub mod permute;
