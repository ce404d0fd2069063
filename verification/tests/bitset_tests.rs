use boggle::bitset::BitSet;

#[test]
fn bitset_can_add() {
    let mut bs = BitSet::new();

    assert_eq!(bs.get(0), false);
    bs.add(0);
    assert_eq!(bs.get(0), true);

    assert_eq!(bs.get(256), false);
    bs.add(256);
    assert_eq!(bs.get(256), true);
}

#[test]
fn bitset_can_remove() {
    let mut bs = BitSet::new();

    bs.add(0);
    bs.remove(0);
    assert_eq!(bs.get(0), false);
}

#[test]
fn len_is_correct() {
    let mut bs = BitSet::new();

    assert_eq!(bs.len(), 0);

    bs.add(0);
    assert_eq!(bs.len(), 1);

    bs.remove(0);
    assert_eq!(bs.len(), 0);

    bs.add(130);
    assert_eq!(bs.len(), 131);

    bs.add(7);
    assert_eq!(bs.len(), 131);

    bs.remove(130);
    assert_eq!(bs.len(), 8);
}

#[test]
fn can_iter_indices() {
    let mut bs = BitSet::new();

    bs.add(0);

    {
        let mut iter = bs.iter_ones();
        assert_eq!(iter.next(), Some(0));
        assert_eq!(iter.next(), None);
    }

    bs.add(15);
    bs.add(31);

    {
        let mut iter = bs.iter_ones();
        assert_eq!(iter.next(), Some(0));
        assert_eq!(iter.next(), Some(15));
        assert_eq!(iter.next(), Some(31));
        assert_eq!(iter.next(), None);
    }

    bs.remove(31);
    bs.add(127);
    bs.add(587);

    {
        let mut iter = bs.iter_ones();
        assert_eq!(iter.next(), Some(0));
        assert_eq!(iter.next(), Some(15));
        assert_eq!(iter.next(), Some(127));
        assert_eq!(iter.next(), Some(587));
        assert_eq!(iter.next(), None);
    }
}

#[test]
fn clear_empties_the_set() {
    let mut bs = BitSet::new();
    bs.add(3);
    bs.add(77);
    bs.clear();
    assert_eq!(bs.len(), 0);
    assert_eq!(bs.get(3), false);
    assert_eq!(bs.get(77), false);
    let mut iter = bs.iter_ones();
    assert_eq!(iter.next(), None);
}

#[test]
fn removing_highest_of_two_rescans() {
    // removing the highest set bit from {0, 130} leaves length 1
    let mut bs = BitSet::new();
    bs.add(0);
    bs.add(130);
    bs.remove(130);
    assert_eq!(bs.len(), 1);
    assert_eq!(bs.get(0), true);
    assert_eq!(bs.get(130), false);
}

#[test]
fn get_beyond_length_is_false() {
    let mut bs = BitSet::new();
    bs.add(9);
    assert_eq!(bs.len(), 10);
    assert_eq!(bs.get(10), false);
    assert_eq!(bs.get(64), false);
    assert_eq!(bs.get(usize::MAX - 1), false);
}

#[test]
fn clone_is_structural() {
    let mut bs = BitSet::new();
    bs.add(5);
    bs.add(99);
    let copy = bs.clone();
    assert_eq!(copy.len(), bs.len());
    assert_eq!(copy.get(5), true);
    assert_eq!(copy.get(99), true);
    assert_eq!(copy.get(6), false);
}

#[test]
fn bool_iter_walks_to_len() {
    let mut bs = BitSet::new();
    bs.add(0);
    bs.add(2);
    let mut iter = boggle::bitset::Iter::new(&bs);
    assert_eq!(iter.next(), Some(true));
    assert_eq!(iter.next(), Some(false));
    assert_eq!(iter.next(), Some(true));
    assert_eq!(iter.next(), None);
}
