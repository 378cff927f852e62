use crossword::crossword_matrix::{band_bounds, CrosswordMatrix, CrosswordMatrixError};
use crossword::explorer::WordExplorer;
use crossword::radix_tree::RadixTree;

fn xmas_tree() -> RadixTree {
    RadixTree::try_from_iter(&vec!["xmas".to_string()]).expect("can't build the tree")
}

#[test]
fn test_soling() {
    let up = "SoooAoooMoooXooo";
    let down = "XoooMoooAoooSooo";
    let stairs_down_left_right = "XooooMooooAooooS";
    let stairs_up_right_left = "SooooAooooMooooX";
    let right = "XMASoooooooooooo";
    let left = "SAMXoooooooooooo";
    let stairs_down_right_left = "oooXooMooAooSooo";
    let stairs_up_left_right = "oooSooAooMooXooo";
    let tree = xmas_tree();
    let mut explorer = WordExplorer::new(tree);
    let tests = [
        up,
        down,
        stairs_down_left_right,
        stairs_up_right_left,
        right,
        left,
        stairs_down_right_left,
        stairs_up_left_right,
    ];
    for game in tests {
        let matrix = CrosswordMatrix::from_linear(4, 4, game).unwrap();
        assert_eq!(matrix.solve(&mut explorer).len(), 1);
    }
}

#[test]
fn test_solving_reel() {
    let test = "ooXooooSAMXooAooAoXMASoSoXoooo";
    let tree = xmas_tree();
    let mut explorer = WordExplorer::new(tree);
    let matrix = CrosswordMatrix::from_linear(6, 5, test).unwrap();
    assert_eq!(matrix.solve(&mut explorer).len(), 4);
}

#[test]
fn solve_site_problem() {
    let test = "MMMSXXMASMMSAMXMSMSAAMXSXMAAMMMSAMASMSMXXMASAMXAMMXXAMMXXAMASMSMSASXSSSAXAMASAAAMAMMMXMMMMMXMXAXMASX";
    let tree = xmas_tree();
    let mut explorer = WordExplorer::new(tree);
    let matrix = CrosswordMatrix::from_linear(10, 10, test).unwrap();
    assert_eq!(matrix.solve(&mut explorer).len(), 18);
}

#[test]
fn solve_reports_the_lowercased_words_found() {
    let tree = xmas_tree();
    let mut explorer = WordExplorer::new(tree);
    let matrix = CrosswordMatrix::from_linear(4, 4, "XMASoooooooooooo").unwrap();
    let found = matrix.solve(&mut explorer);
    assert_eq!(found, vec!["xmas".to_string()]);
}

#[test]
fn solve_finds_nested_prefix_words_in_one_scan() {
    let words = vec!["ma".to_string(), "mais".to_string(), "maison".to_string()];
    let tree = RadixTree::try_from_iter(&words).expect("can't build the tree");
    let mut explorer = WordExplorer::new(tree);
    let matrix = CrosswordMatrix::from_linear(6, 1, "maison").unwrap();
    let found = matrix.solve(&mut explorer);
    assert_eq!(
        found,
        vec!["ma".to_string(), "mais".to_string(), "maison".to_string()]
    );
}

#[test]
fn solve_single_column_grid() {
    let tree = xmas_tree();
    let mut explorer = WordExplorer::new(tree);
    let matrix = CrosswordMatrix::from_linear(1, 4, "xmas").unwrap();
    assert_eq!(matrix.solve(&mut explorer).len(), 1);
}

#[test]
fn solve_empty_grid_finds_nothing() {
    let tree = xmas_tree();
    let mut explorer = WordExplorer::new(tree);
    let matrix = CrosswordMatrix::from_linear(0, 0, "").unwrap();
    assert_eq!(matrix.solve(&mut explorer).len(), 0);
}

#[test]
fn solve_twice_gives_the_same_result() {
    let test = "ooXooooSAMXooAooAoXMASoSoXoooo";
    let tree = xmas_tree();
    let mut explorer = WordExplorer::new(tree);
    let matrix = CrosswordMatrix::from_linear(6, 5, test).unwrap();
    let first = matrix.solve(&mut explorer);
    let second = matrix.solve(&mut explorer);
    assert_eq!(first, second);
}

#[test]
fn solve_in_column_bands_matches_whole_solve() {
    let test = "ooXooooSAMXooAooAoXMASoSoXoooo";
    let tree = xmas_tree();
    let mut explorer = WordExplorer::new(tree);
    let matrix = CrosswordMatrix::from_linear(6, 5, test).unwrap();
    let whole = matrix.solve(&mut explorer);
    let mut banded: Vec<String> = Vec::new();
    let n_workers = 4;
    for k in 0..n_workers {
        let (lo, hi) = band_bounds(6, n_workers, k);
        banded.extend(matrix.solve_columns(&mut explorer, lo, hi));
    }
    assert_eq!(whole, banded);
}

#[test]
fn band_bounds_cover_the_columns_exactly_once() {
    assert_eq!(band_bounds(10, 4, 0), (0, 3));
    assert_eq!(band_bounds(10, 4, 1), (3, 6));
    assert_eq!(band_bounds(10, 4, 2), (6, 8));
    assert_eq!(band_bounds(10, 4, 3), (8, 10));
    assert_eq!(band_bounds(3, 5, 2), (2, 3));
    assert_eq!(band_bounds(3, 5, 4), (3, 3));
}

#[test]
fn from_linear_rejects_a_size_mismatch() {
    let r = CrosswordMatrix::from_linear(4, 4, "tooshort");
    assert!(matches!(r, Err(CrosswordMatrixError::InvalidSize)));
}

#[test]
fn from_linear_rejects_a_bad_character() {
    let r = CrosswordMatrix::from_linear(2, 2, "xm4s");
    assert!(matches!(r, Err(CrosswordMatrixError::InvalidChar)));
}

#[test]
fn from_row_builds_a_grid_from_equal_rows() {
    let rows = vec!["XMAS".to_string(), "oooo".to_string()];
    let tree = xmas_tree();
    let mut explorer = WordExplorer::new(tree);
    let matrix = CrosswordMatrix::from_row(&rows).unwrap();
    assert_eq!(matrix.solve(&mut explorer).len(), 1);
}

#[test]
fn from_row_rejects_uneven_rows() {
    let rows = vec!["ab".to_string(), "c".to_string()];
    let r = CrosswordMatrix::from_row(&rows);
    assert!(matches!(r, Err(CrosswordMatrixError::InvalidSize)));
}

#[test]
fn from_row_reports_the_first_failing_row_size_first() {
    // the second row is too short; the third row's bad character comes later
    let rows = vec!["ab".to_string(), "c".to_string(), "d!".to_string()];
    let r = CrosswordMatrix::from_row(&rows);
    assert!(matches!(r, Err(CrosswordMatrixError::InvalidSize)));
}

#[test]
fn from_row_reports_the_first_failing_row_letters_second() {
    // the second row has the right length but a bad character; the third
    // row's wrong length comes later
    let rows = vec!["ab".to_string(), "c!".to_string(), "d".to_string()];
    let r = CrosswordMatrix::from_row(&rows);
    assert!(matches!(r, Err(CrosswordMatrixError::InvalidChar)));
}

#[test]
fn from_row_rejects_a_bad_character() {
    let rows = vec!["ab".to_string(), "c!".to_string()];
    let r = CrosswordMatrix::from_row(&rows);
    assert!(matches!(r, Err(CrosswordMatrixError::InvalidChar)));
}

#[test]
fn error_messages_name_the_failure() {
    assert_eq!(
        CrosswordMatrixError::InvalidChar.message(),
        "Matrix contains non-alphabetic characters"
    );
    assert_eq!(
        CrosswordMatrixError::InvalidSize.message(),
        "Matrix dimensions do not match string length"
    );
}
