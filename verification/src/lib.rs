pub mod crossword_matrix;
pub mod explorer;
pub mod radix_tree;
