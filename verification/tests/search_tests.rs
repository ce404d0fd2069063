use boggle::lazy::DictBasedIterator;
use boggle::radix_board::RadixBoggleBoard;
use boggle::search::idx_vec_to_string;
use boggle::search::solve;
use boggle::search::solve_radix;
use boggle::simple_board::SimpleBoggleBoard;
use boggle::trie::Trie;

fn lines(v: &[&str]) -> Vec<String> {
    v.iter().map(|s| s.to_string()).collect()
}

fn sorted(mut v: Vec<String>) -> Vec<String> {
    v.sort();
    v
}

fn lazy_all(trie: &Trie, board: &RadixBoggleBoard) -> Vec<String> {
    let mut out = Vec::new();
    let mut it = DictBasedIterator::new(trie, board);
    while let Some(s) = it.next() {
        out.push(s);
    }
    out
}

#[test]
fn two_by_two_grid_respects_adjacency() {
    // a t
    // o y    -- on a 2x2 grid every pair of cells is adjacent under the
    // 8-neighbor rule, the diagonal a-y included, so both words are found
    let board = SimpleBoggleBoard::read(&lines(&["at", "oy"])).unwrap();
    let radix = RadixBoggleBoard::from(&board);
    let mut trie = Trie::new();
    assert!(trie.insert("at", 0));
    assert!(trie.insert("ay", 1));
    let found = sorted(solve_radix(&trie, &radix));
    assert_eq!(found, vec!["at".to_string(), "ay".to_string()]);
}

#[test]
fn non_adjacent_word_is_not_found() {
    // a t o
    // x x y   -- "ay" needs a (cell 0) next to y (cell 5); they are not
    // adjacent, while "at" is spelled by 0-1
    let board = SimpleBoggleBoard::read(&lines(&["ato", "xxy"])).unwrap();
    let radix = RadixBoggleBoard::from(&board);
    let mut trie = Trie::new();
    assert!(trie.insert("at", 0));
    assert!(trie.insert("ay", 1));
    let found = solve_radix(&trie, &radix);
    assert_eq!(found, vec!["at".to_string()]);
}

#[test]
fn cells_are_not_reused_within_a_path() {
    // "aba" needs two distinct a-cells around the b; a 1x... here only one
    // a exists next to b, so "aba" must not be reported, while "ab" is
    let board = SimpleBoggleBoard::read(&lines(&["ab", "xx"])).unwrap();
    let radix = RadixBoggleBoard::from(&board);
    let mut trie = Trie::new();
    assert!(trie.insert("ab", 0));
    assert!(trie.insert("aba", 1));
    let found = solve_radix(&trie, &radix);
    assert_eq!(found, vec!["ab".to_string()]);
}

#[test]
fn each_word_is_reported_once() {
    // "aa" is spellable along many cell pairs but must come out once
    let board = SimpleBoggleBoard::read(&lines(&["aa", "aa"])).unwrap();
    let radix = RadixBoggleBoard::from(&board);
    let mut trie = Trie::new();
    assert!(trie.insert("aa", 0));
    assert!(trie.insert("aaa", 1));
    assert!(trie.insert("aaaa", 2));
    assert!(trie.insert("aaaaa", 3));
    let found = sorted(solve_radix(&trie, &radix));
    assert_eq!(
        found,
        vec!["aa".to_string(), "aaa".to_string(), "aaaa".to_string()]
    );
}

#[test]
fn eager_forms_agree() {
    let board = SimpleBoggleBoard::read(&lines(&["cat", "sxe", "rty"])).unwrap();
    let radix = RadixBoggleBoard::from(&board);
    let mut trie = Trie::new();
    for (i, w) in ["cat", "cats", "case", "at", "tax", "try", "extra", "xx"]
        .iter()
        .enumerate()
    {
        assert!(trie.insert(w, i));
    }
    let simple_found = sorted(solve(&trie, &board));
    let radix_found = sorted(solve_radix(&trie, &radix));
    assert_eq!(simple_found, radix_found);
}

#[test]
fn lazy_and_eager_forms_agree() {
    let board = SimpleBoggleBoard::read(&lines(&["cat", "sxe", "rty"])).unwrap();
    let radix = RadixBoggleBoard::from(&board);
    let mut trie = Trie::new();
    for (i, w) in ["cat", "cats", "case", "at", "tax", "try", "extra", "xx"]
        .iter()
        .enumerate()
    {
        assert!(trie.insert(w, i));
    }
    let eager = sorted(solve_radix(&trie, &radix));
    let lazy = sorted(lazy_all(&trie, &radix));
    assert_eq!(eager, lazy);
}

#[test]
fn lazy_form_is_resumable() {
    let board = SimpleBoggleBoard::read(&lines(&["ab", "cd"])).unwrap();
    let radix = RadixBoggleBoard::from(&board);
    let mut trie = Trie::new();
    assert!(trie.insert("ab", 0));
    assert!(trie.insert("bd", 1));
    assert!(trie.insert("zz", 2));
    let mut it = DictBasedIterator::new(&trie, &radix);
    let first = it.next();
    assert!(first.is_some());
    let second = it.next();
    assert!(second.is_some());
    assert_ne!(first, second);
    assert_eq!(it.next(), None);
    assert_eq!(it.next(), None);
}

#[test]
fn the_game_tile_letter_is_restored() {
    // q stands for the two-letter tile: "qit" is stored from "quit" with
    // the u dropped, and comes back out with the u restored
    let board = SimpleBoggleBoard::read(&lines(&["qi", "tx"])).unwrap();
    let radix = RadixBoggleBoard::from(&board);
    let mut trie = Trie::new();
    assert!(trie.insert("qit", 0));
    let found = solve_radix(&trie, &radix);
    assert_eq!(found, vec!["quit".to_string()]);
}

#[test]
fn decoding_restores_the_tile_pair() {
    assert_eq!(idx_vec_to_string(vec![2, 0, 19]), "cat");
    assert_eq!(idx_vec_to_string(vec![16, 8, 19]), "quit");
    assert_eq!(idx_vec_to_string(Vec::new()), "");
    assert_eq!(idx_vec_to_string(vec![16]), "qu");
}

#[test]
fn empty_dictionary_finds_nothing() {
    let board = SimpleBoggleBoard::read(&lines(&["ab", "cd"])).unwrap();
    let radix = RadixBoggleBoard::from(&board);
    let trie = Trie::new();
    assert_eq!(solve_radix(&trie, &radix), Vec::<String>::new());
    assert_eq!(lazy_all(&trie, &radix), Vec::<String>::new());
}

#[test]
fn lazy_form_reports_single_letter_words_too() {
    // a one-letter dictionary word is below the eager walk's two-letter
    // floor, but the lazy walk reports it
    let board = SimpleBoggleBoard::read(&lines(&["ab", "cd"])).unwrap();
    let radix = RadixBoggleBoard::from(&board);
    let mut trie = Trie::new();
    assert!(trie.insert("a", 0));
    assert!(trie.insert("ab", 1));
    assert_eq!(solve_radix(&trie, &radix), vec!["ab".to_string()]);
    assert_eq!(sorted(lazy_all(&trie, &radix)), vec!["a".to_string(), "ab".to_string()]);
}

#[test]
fn lazy_form_is_exhaustive() {
    // once the walk returns None it has delivered every traceable word,
    // and stays at None
    let board = SimpleBoggleBoard::read(&lines(&["ab", "cd"])).unwrap();
    let radix = RadixBoggleBoard::from(&board);
    let mut trie = Trie::new();
    assert!(trie.insert("ab", 0));
    assert!(trie.insert("abd", 1));
    assert!(trie.insert("abdc", 2));
    assert!(trie.insert("ba", 3));
    assert!(trie.insert("zz", 4));
    let mut it = DictBasedIterator::new(&trie, &radix);
    let mut seen = Vec::new();
    while let Some(s) = it.next() {
        seen.push(s);
    }
    assert_eq!(it.next(), None);
    assert_eq!(it.next(), None);
    assert_eq!(
        sorted(seen),
        vec!["ab".to_string(), "abd".to_string(), "abdc".to_string(), "ba".to_string()]
    );
}
