use boggle::bitset_32::BitSet32;

#[test]
fn bitset_32_can_add() {
    let mut bs = BitSet32::new();

    assert_eq!(bs.get(0), false);
    bs.add(0);
    assert_eq!(bs.get(0), true);
}

#[test]
fn bitset_32_can_remove() {
    let mut bs = BitSet32::new();

    bs.add(0);
    bs.add(1);
    bs.remove(1);
    assert_eq!(bs.get(0), true);
    assert_eq!(bs.get(1), false);
}

#[test]
fn can_iter() {
    let mut bs = BitSet32::new();

    bs.add(0);
    bs.add(3);

    let mut iter = bs.iter();
    assert_eq!(iter.next(), Some(true));
    assert_eq!(iter.next(), Some(false));
    assert_eq!(iter.next(), Some(false));
    assert_eq!(iter.next(), Some(true));

    while let Some(b) = iter.next() {
        assert_eq!(b, false);
    }
}

#[test]
fn can_iter_ones() {
    let mut bs = BitSet32::new();

    bs.add(0);

    {
        let mut iter = bs.iter_ones();
        assert_eq!(iter.next(), Some(0));
        assert_eq!(iter.next(), None);
    }

    bs.add(15);
    bs.add(31);

    {
        let mut iter = bs.iter_ones();
        assert_eq!(iter.next(), Some(0));
        assert_eq!(iter.next(), Some(15));
        assert_eq!(iter.next(), Some(31));
        assert_eq!(iter.next(), None);
    }
}

#[test]
fn cardinality_is_correct() {
    let mut bs = BitSet32::new();

    assert_eq!(bs.cardinality(), 0);
    bs.add(0);
    assert_eq!(bs.cardinality(), 1);
    bs.add(15);
    assert_eq!(bs.cardinality(), 2);
    bs.add(31);
    assert_eq!(bs.cardinality(), 3);
    bs.remove(31);
    println!("{}", bs.describe());
    assert_eq!(bs.cardinality(), 2);
}

#[test]
fn format_is_correct() {
    let mut bs = BitSet32::new();

    assert_eq!(bs.describe(), "BitSet32(00000000000000000000000000000000)");
    bs.add(0);
    assert_eq!(bs.describe(), "BitSet32(10000000000000000000000000000000)");
}

#[test]
fn set_writes_both_ways() {
    let mut bs = BitSet32::new();
    bs.set(4, true);
    assert_eq!(bs.get(4), true);
    bs.set(4, false);
    assert_eq!(bs.get(4), false);
}

#[test]
fn iteration_count_matches_cardinality() {
    // the set-bit walk yields exactly the members, ascending, and their
    // count is the cardinality
    let mut bs = BitSet32::new();
    bs.add(2);
    bs.add(7);
    bs.add(30);
    let mut seen: Vec<u32> = Vec::new();
    let mut iter = bs.iter_ones();
    while let Some(i) = iter.next() {
        seen.push(i);
    }
    assert_eq!(seen, vec![2, 7, 30]);
    assert_eq!(seen.len() as u32, bs.cardinality());
    for i in 0..32u32 {
        assert_eq!(bs.get(i), seen.contains(&i));
    }
}
