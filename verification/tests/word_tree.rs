use nine_q_lib::word_tree::WordTree;

fn sorted(mut v: Vec<String>) -> Vec<String> {
    v.sort();
    v
}

fn strings(words: &[&str]) -> Vec<String> {
    words.iter().map(|w| w.to_string()).collect()
}

#[test]
fn zoo() {
    let mut test_data = WordTree::default();
    let mut words = vec!["zoo".to_string()];
    test_data.generate(&mut words);
    assert_eq!(test_data.get_words(), ["zoo".to_string()]);
}

#[test]
fn many_zoos() {
    let test_data = WordTree::new(&vec![
        "zoo".to_owned(),
        "zoo".to_owned(),
        "zoo".to_owned(),
    ]);
    assert_eq!(test_data.get_words(), ["zoo".to_string()]);
}

#[test]
fn happy_words() {
    let words = strings(&["fabulous", "happiness", "happy", "kinder", "kind", "radiant"]);
    let test_data = WordTree::new(&words);
    assert_eq!(test_data.get_words(), words);
}

#[test]
fn round_trip_is_set_of_input() {
    let words = strings(&["cat", "at", "cats", "cat", "at"]);
    let tree = WordTree::new(&words);
    assert_eq!(tree.get_words(), strings(&["at", "cats", "cat"]));
}

#[test]
fn build_is_order_and_duplicate_insensitive() {
    let tree_a = WordTree::new(&strings(&["kind", "happy", "fabulous"]));
    let tree_b = WordTree::new(&strings(&["fabulous", "happy", "kind"]));
    let tree_c = WordTree::new(&strings(&[
        "kind", "happy", "fabulous", "kind", "happy", "fabulous",
    ]));
    assert_eq!(sorted(tree_a.get_words()), sorted(tree_b.get_words()));
    assert_eq!(sorted(tree_a.get_words()), sorted(tree_c.get_words()));
}

#[test]
fn multiplicity_one_o_is_not_enough() {
    let tree = WordTree::new(&strings(&["oo"]));
    assert_eq!(tree.solve(&"o".to_string()), Vec::<String>::new());
    assert_eq!(tree.solve(&"oo".to_string()), vec!["oo".to_string()]);
}

#[test]
fn subset_of_board_letters() {
    let tree = WordTree::new(&strings(&["cat", "cats", "at"]));
    assert_eq!(
        sorted(tree.solve(&"cats".to_string())),
        sorted(strings(&["cat", "cats", "at"]))
    );
    assert_eq!(
        sorted(tree.solve(&"act".to_string())),
        sorted(strings(&["cat", "at"]))
    );
}

#[test]
fn leftover_letters_are_allowed() {
    let tree = WordTree::new(&strings(&["a"]));
    assert_eq!(tree.solve(&"abc".to_string()), vec!["a".to_string()]);
}

#[test]
fn empty_dictionary_and_empty_board() {
    let empty_tree = WordTree::new(&Vec::new());
    assert_eq!(empty_tree.solve(&"anything".to_string()), Vec::<String>::new());
    assert_eq!(empty_tree.get_words(), Vec::<String>::new());
    let tree = WordTree::new(&strings(&["a"]));
    assert_eq!(tree.solve(&"".to_string()), Vec::<String>::new());
}

#[test]
fn no_spurious_words() {
    let tree = WordTree::new(&strings(&["dog", "god", "good", "do", "go"]));
    let board = "dogo".to_string();
    let stored = tree.get_words();
    for found in tree.solve(&board) {
        assert!(stored.contains(&found));
        let mut pool: Vec<char> = board.chars().collect();
        for c in found.chars() {
            let at = pool.iter().position(|&p| p == c);
            assert!(at.is_some(), "letter {} used beyond the board", c);
            pool.remove(at.unwrap());
        }
    }
    assert_eq!(sorted(tree.solve(&board)), sorted(strings(&["dog", "do", "god", "go", "good"])));
}

#[test]
fn terminal_word_with_extensions() {
    let tree = WordTree::new(&strings(&["cat", "cats"]));
    assert_eq!(tree.get_words(), strings(&["cats", "cat"]));
    assert_eq!(sorted(tree.solve(&"stac".to_string())), sorted(strings(&["cat", "cats"])));
}
