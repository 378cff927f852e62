use crossword::explorer::{ExplorerResult, WordExplorer};
use crossword::radix_tree::{validate_char, RadixTree, RadixTreeError};

#[test]
fn stepping_an_inserted_word_reaches_a_word_mark() {
    let tree = RadixTree::try_from_iter(&vec!["xmas".to_string()]).expect("can't build the tree");
    let mut node: usize = 0;
    let mut last_is_word = false;
    for c in ['x', 'm', 'a', 's'] {
        let state = tree
            .explore_char_unchecked(node, c)
            .expect("the inserted word must be walkable");
        node = state.index as usize;
        last_is_word = state.is_valide_word;
    }
    assert!(last_is_word);
}

#[test]
fn stepping_a_proper_prefix_reaches_no_word_mark() {
    let tree = RadixTree::try_from_iter(&vec!["xmas".to_string()]).expect("can't build the tree");
    let mut node: usize = 0;
    let mut last_is_word = true;
    for c in ['x', 'm', 'a'] {
        let state = tree
            .explore_char_unchecked(node, c)
            .expect("the prefix of an inserted word must be walkable");
        node = state.index as usize;
        last_is_word = state.is_valide_word;
    }
    assert!(!last_is_word);
}

#[test]
fn stepping_an_absent_letter_finds_no_branch() {
    let tree = RadixTree::try_from_iter(&vec!["xmas".to_string()]).expect("can't build the tree");
    assert!(tree.explore_char_unchecked(0, 'q').is_none());
}

#[test]
fn words_are_stored_lowercased() {
    let tree = RadixTree::try_from_iter(&vec!["XmAs".to_string()]).expect("can't build the tree");
    let mut node: usize = 0;
    let mut last_is_word = false;
    for c in ['x', 'm', 'a', 's'] {
        let state = tree
            .explore_char_unchecked(node, c)
            .expect("the word must be stored in lowercase");
        node = state.index as usize;
        last_is_word = state.is_valide_word;
    }
    assert!(last_is_word);
}

#[test]
fn validate_char_lowercases_letters() {
    assert_eq!(validate_char('a'), Ok('a'));
    assert_eq!(validate_char('Z'), Ok('z'));
}

#[test]
fn validate_char_rejects_non_letters() {
    assert_eq!(validate_char('1'), Err('1'));
    assert_eq!(validate_char(' '), Err(' '));
}

#[test]
fn building_from_a_word_with_a_bad_character_fails() {
    let r = RadixTree::try_from_iter(&vec!["xm4s".to_string()]);
    match r {
        Err(RadixTreeError::InvalidCharacter { word, character }) => {
            assert_eq!(word, "xm4s");
            assert_eq!(character, '4');
        }
        _ => panic!("expected an invalid-character error"),
    }
}

#[test]
fn building_reports_the_first_bad_word_and_character() {
    let words = vec!["ok".to_string(), "b4d".to_string(), "w0rse".to_string()];
    let r = RadixTree::try_from_iter(&words);
    match r {
        Err(RadixTreeError::InvalidCharacter { word, character }) => {
            assert_eq!(word, "b4d");
            assert_eq!(character, '4');
        }
        _ => panic!("expected an invalid-character error"),
    }
}

#[test]
fn explorer_accepts_letters_of_a_word_one_by_one() {
    let tree = RadixTree::try_from_iter(&vec!["xmas".to_string()]).expect("can't build the tree");
    let mut explorer = WordExplorer::new(tree);
    assert!(matches!(explorer.explore_char('x'), ExplorerResult::PartialWord));
    assert!(matches!(explorer.explore_char('m'), ExplorerResult::PartialWord));
    assert!(matches!(explorer.explore_char('a'), ExplorerResult::PartialWord));
    assert!(matches!(explorer.explore_char('s'), ExplorerResult::ValideWord));
    assert_eq!(explorer.get_word(), "xmas");
}

#[test]
fn explorer_after_reset_behaves_like_a_fresh_one() {
    let tree = RadixTree::try_from_iter(&vec!["xmas".to_string()]).expect("can't build the tree");
    let mut explorer = WordExplorer::new(tree);
    assert!(matches!(explorer.explore_char('x'), ExplorerResult::PartialWord));
    assert!(matches!(explorer.explore_char('q'), ExplorerResult::Reset));
    assert_eq!(explorer.get_word(), "");
    assert!(matches!(explorer.explore_char('x'), ExplorerResult::PartialWord));
    assert_eq!(explorer.get_word(), "x");
}

#[test]
fn explorer_resets_on_a_character_that_is_no_letter() {
    let tree = RadixTree::try_from_iter(&vec!["xmas".to_string()]).expect("can't build the tree");
    let mut explorer = WordExplorer::new(tree);
    assert!(matches!(explorer.explore_char('x'), ExplorerResult::PartialWord));
    assert!(matches!(explorer.explore_char('!'), ExplorerResult::Reset));
    assert_eq!(explorer.get_word(), "");
}

#[test]
fn flush_clears_the_accumulated_word() {
    let tree = RadixTree::try_from_iter(&vec!["xmas".to_string()]).expect("can't build the tree");
    let mut explorer = WordExplorer::new(tree);
    assert!(matches!(explorer.explore_char('x'), ExplorerResult::PartialWord));
    explorer.flush();
    assert_eq!(explorer.get_word(), "");
    assert!(matches!(explorer.explore_char('x'), ExplorerResult::PartialWord));
}

#[test]
fn explorer_is_case_insensitive_and_lowercases() {
    let tree = RadixTree::try_from_iter(&vec!["xmas".to_string()]).expect("can't build the tree");
    let mut explorer = WordExplorer::new(tree);
    assert!(matches!(explorer.explore_char('X'), ExplorerResult::PartialWord));
    assert!(matches!(explorer.explore_char('M'), ExplorerResult::PartialWord));
    assert_eq!(explorer.get_word(), "xm");
}

#[test]
fn add_word_inserts_into_an_empty_tree() {
    let mut tree = RadixTree::try_from_iter(&Vec::new()).expect("an empty dictionary builds");
    assert!(tree.explore_char_unchecked(0, 'x').is_none());
    tree.add_word("Xmas").expect("a valid word inserts");
    let mut node: usize = 0;
    let mut last_is_word = false;
    for c in ['x', 'm', 'a', 's'] {
        let state = tree
            .explore_char_unchecked(node, c)
            .expect("the inserted word must be walkable");
        node = state.index as usize;
        last_is_word = state.is_valide_word;
    }
    assert!(last_is_word);
}

#[test]
fn add_word_rejects_a_word_with_a_bad_character() {
    let mut tree = RadixTree::try_from_iter(&Vec::new()).expect("an empty dictionary builds");
    let r = tree.add_word("xm4s");
    match r {
        Err(RadixTreeError::InvalidCharacter { word, character }) => {
            assert_eq!(word, "xm4s");
            assert_eq!(character, '4');
        }
        _ => panic!("expected an invalid-character error"),
    }
}

#[test]
fn the_arena_grows_by_exactly_the_missing_prefixes() {
    let mut tree =
        RadixTree::try_from_iter(&vec!["xmas".to_string()]).expect("can't build the tree");
    assert_eq!(tree.nodes.len(), 5);
    tree.add_word("xmax").expect("a valid word inserts");
    assert_eq!(tree.nodes.len(), 6);
    tree.add_word("xm").expect("a valid word inserts");
    assert_eq!(tree.nodes.len(), 6);
}

#[test]
fn reinserting_a_word_leaves_the_arena_unchanged() {
    let mut tree =
        RadixTree::try_from_iter(&vec!["xmas".to_string()]).expect("can't build the tree");
    let len_before = tree.nodes.len();
    tree.add_word("xmas").expect("re-inserting a held word succeeds");
    assert_eq!(tree.nodes.len(), len_before);
    tree.add_word("XMAS").expect("re-inserting a held word succeeds");
    assert_eq!(tree.nodes.len(), len_before);
}

#[test]
fn reinserting_a_word_changes_nothing() {
    let words = vec!["xmas".to_string(), "xmas".to_string()];
    let tree = RadixTree::try_from_iter(&words).expect("can't build the tree");
    let mut explorer = WordExplorer::new(tree);
    assert!(matches!(explorer.explore_char('x'), ExplorerResult::PartialWord));
    assert!(matches!(explorer.explore_char('m'), ExplorerResult::PartialWord));
    assert!(matches!(explorer.explore_char('a'), ExplorerResult::PartialWord));
    assert!(matches!(explorer.explore_char('s'), ExplorerResult::ValideWord));
}
