use boggle::radix_board::RadixBoggleBoard;
use boggle::simple_board::SimpleBoggleBoard;

fn lines(v: &[&str]) -> Vec<String> {
    v.iter().map(|s| s.to_string()).collect()
}

#[test]
fn read_accepts_a_rectangle() {
    let b = SimpleBoggleBoard::read(&lines(&["at", "oy"])).unwrap();
    assert_eq!(b.width(), 2);
    assert_eq!(b.height(), 2);
    // a=0, t=19, o=14, y=24
    assert_eq!(b.iter(), &vec![0u8, 19, 14, 24]);
}

#[test]
fn read_trims_and_folds_case() {
    let b = SimpleBoggleBoard::read(&lines(&["  At ", "\toY\r"])).unwrap();
    assert_eq!(b.width(), 2);
    assert_eq!(b.height(), 2);
    assert_eq!(b.iter(), &vec![0u8, 19, 14, 24]);
}

#[test]
fn read_rejects_no_lines() {
    assert_eq!(SimpleBoggleBoard::read(&lines(&[])).err(), Some("Empty iterator"));
}

#[test]
fn read_rejects_bad_characters() {
    assert_eq!(SimpleBoggleBoard::read(&lines(&["a1", "bc"])).err(), Some("Invalid chars"));
    assert_eq!(SimpleBoggleBoard::read(&lines(&["ab", "c."])).err(), Some("Invalid chars"));
}

#[test]
fn read_rejects_ragged_lines() {
    assert_eq!(SimpleBoggleBoard::read(&lines(&["ab", "cde"])).err(), Some("Invalid line length"));
}

#[test]
fn read_rejects_one_line() {
    assert_eq!(SimpleBoggleBoard::read(&lines(&["abc"])).err(), Some("Board height must be >= 2"));
}

#[test]
fn simple_neighbors_filter_by_letter() {
    // a t
    // o y
    let b = SimpleBoggleBoard::read(&lines(&["at", "oy"])).unwrap();
    // neighbors of cell 0 (a) holding t=19: only cell 1
    assert_eq!(b.neighbors(0, 19), vec![1]);
    // neighbors of cell 0 holding y=24: only cell 3 (diagonal)
    assert_eq!(b.neighbors(0, 24), vec![3]);
    // neighbors of cell 0 holding a=0: none (no other cell holds a)
    assert_eq!(b.neighbors(0, 0), Vec::<usize>::new());
}

#[test]
fn simple_any_lists_cells_ascending() {
    let b = SimpleBoggleBoard::read(&lines(&["aba", "bab"])).unwrap();
    assert_eq!(b.any(0), vec![0, 2, 4]);
    assert_eq!(b.any(1), vec![1, 3, 5]);
    assert_eq!(b.any(2), Vec::<usize>::new());
}

#[test]
fn radix_neighbors_match_simple_neighbors() {
    // neighbor masks agree with the geometric relation in both directions
    let b = SimpleBoggleBoard::read(&lines(&["abc", "def", "ghi"])).unwrap();
    let r = RadixBoggleBoard::from(&b);
    let w = b.width();
    let h = b.height();
    let cells = b.iter().clone();
    for i in 0..w * h {
        for v in 0..26u8 {
            let mut from_radix: Vec<usize> = Vec::new();
            let mut it = r.neighbors(i, v);
            while let Some(j) = it.next() {
                from_radix.push(j);
            }
            assert_eq!(from_radix, b.neighbors(i, v));
            // symmetry: j is reported from i for j's letter exactly when
            // i is reported from j for i's letter
            for j in from_radix {
                let back: Vec<usize> = {
                    let mut out = Vec::new();
                    let mut back_it = r.neighbors(j, cells[i]);
                    while let Some(k) = back_it.next() {
                        out.push(k);
                    }
                    out
                };
                assert!(back.contains(&i));
            }
        }
    }
}

#[test]
fn radix_any_matches_simple_any() {
    let b = SimpleBoggleBoard::read(&lines(&["aba", "bab"])).unwrap();
    let r = RadixBoggleBoard::from(&b);
    for v in 0..26u8 {
        let mut from_radix: Vec<usize> = Vec::new();
        let mut it = r.any(v);
        while let Some(c) = it.next() {
            from_radix.push(c);
        }
        assert_eq!(from_radix, b.any(v));
    }
}

#[test]
fn set_overwrites_a_cell() {
    let mut b = SimpleBoggleBoard::new(2, 2);
    b.set(0, 7);
    b.set(3, 25);
    assert_eq!(b.iter(), &vec![7u8, 0, 0, 25]);
}
