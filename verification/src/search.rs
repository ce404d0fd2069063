//! The search engine: a depth-first walk of the product of the prefix
//! trie and the board, reporting every dictionary word of two or more
//! letters that can be traced as a simple path of adjacent cells.

use vstd::prelude::*;
use vstd::set_lib::lemma_len_subset;
use vstd::set_lib::lemma_int_range;
use vstd::set_lib::set_int_range;
use crate::bitset::BitSet;
use crate::grid::adjacent;
use crate::grid::cells_with;
use crate::grid::letter_neighbors;
use crate::radix_board::RadixBoggleBoard;
use crate::simple_board::SimpleBoggleBoard;
use crate::trie::NodeType;
use crate::trie::Trie;

verus! {

/// `path` spells `word` on the grid: one cell per letter, consecutive
/// cells adjacent, and no cell visited twice.
pub open spec fn path_ok(
    w: int,
    h: int,
    g: Seq<Option<u8>>,
    path: Seq<usize>,
    word: Seq<u8>,
) -> bool {
    &&& path.len() == word.len()
    &&& (forall|k: int|
        0 <= k < path.len() ==> (#[trigger] path[k]) < w * h && g[path[k] as int] == Some(word[k]))
    &&& (forall|k: int|
        1 <= k < path.len() ==> adjacent(w, h, path[k - 1] as int, (#[trigger] path[k]) as int))
    &&& (forall|k1: int, k2: int|
        #![trigger path[k1], path[k2]]
        0 <= k1 < k2 < path.len() ==> path[k1] != path[k2])
}

/// `word` can be traced somewhere on the grid.
pub open spec fn findable(w: int, h: int, g: Seq<Option<u8>>, word: Seq<u8>) -> bool {
    exists|q: Seq<usize>| path_ok(w, h, g, q, word)
}

/// The id under which the trie classifies `p` as a word, if it does.
pub open spec fn lookup_word_id(t: Trie, p: Seq<u8>) -> Option<usize> {
    match t.lookup(p) {
        Some(NodeType::Word(id)) => Some(id),
        _ => None,
    }
}

/// A word the search reports: two or more letters, a dictionary word of
/// the trie, and traceable as a simple path on the grid.
pub open spec fn is_found_word(t: Trie, w: int, h: int, g: Seq<Option<u8>>, word: Seq<u8>) -> bool {
    &&& word.len() >= 2
    &&& lookup_word_id(t, word) is Some
    &&& findable(w, h, g, word)
}

/// Word ids fit the tracker and name their word uniquely.
pub open spec fn distinct_ids(t: Trie) -> bool {
    &&& (forall|p: Seq<u8>| #[trigger] lookup_word_id(t, p) is Some ==> lookup_word_id(t, p)->0
        < usize::MAX)
    &&& (forall|p1: Seq<u8>, p2: Seq<u8>|
        #![trigger lookup_word_id(t, p1), lookup_word_id(t, p2)]
        lookup_word_id(t, p1) is Some && lookup_word_id(t, p2) is Some && p1 != p2 ==>
            lookup_word_id(t, p1) != lookup_word_id(t, p2))
}

/// Some word `e` of `t`'s subtree extends the current path to a longer
/// simple path.
pub open spec fn reachable_word(
    t: Trie,
    w: int,
    h: int,
    g: Seq<Option<u8>>,
    path: Seq<usize>,
    word: Seq<u8>,
    e: Seq<u8>,
) -> bool {
    &&& e.len() >= 1
    &&& lookup_word_id(t, e) is Some
    &&& (exists|q: Seq<usize>| path_ok(w, h, g, path + q, word + e))
}

/// As `reachable_word`, with the extension's first cell fixed to `p`.
pub open spec fn reach_via(
    t: Trie,
    w: int,
    h: int,
    g: Seq<Option<u8>>,
    path: Seq<usize>,
    word: Seq<u8>,
    e: Seq<u8>,
    p: usize,
) -> bool {
    &&& e.len() >= 1
    &&& lookup_word_id(t, e) is Some
    &&& (exists|q: Seq<usize>|
        q.len() >= 1 && q[0] == p && path_ok(w, h, g, path + q, word + e))
}

/// `out` holds a string whose characters are `s`.
pub open spec fn strings_contain(out: Seq<String>, s: Seq<char>) -> bool {
    exists|k: int| 0 <= k < out.len() && out[k]@ == s
}

/// The text of a word: each letter index becomes its lowercase letter,
/// and the letter standing for the two-letter game tile is restored to
/// the pair it stands for.
pub open spec fn decode_word(wd: Seq<u8>) -> Seq<char>
    decreases wd.len(),
{
    if wd.len() == 0 {
        Seq::empty()
    } else {
        (if wd[0] == 16 {
            seq![((97 + wd[0]) as int) as char, 'u']
        } else {
            seq![((97 + wd[0]) as int) as char]
        }) + decode_word(wd.drop_first())
    }
}

/// Decoding distributes over concatenation.
pub proof fn lemma_decode_concat(a: Seq<u8>, b: Seq<u8>)
    ensures
        decode_word(a + b) == decode_word(a) + decode_word(b),
    decreases a.len(),
{
    if a.len() == 0 {
        assert(a + b =~= b);
        assert(decode_word(a) + decode_word(b) =~= decode_word(b));
    } else {
        lemma_decode_concat(a.drop_first(), b);
        assert((a + b).drop_first() =~= a.drop_first() + b);
        assert((a + b)[0] == a[0]);
        assert((a + b).len() > 0);
        assert(decode_word(a + b) == (if a[0] == 16 {
            seq![((97 + a[0]) as int) as char, 'u']
        } else {
            seq![((97 + a[0]) as int) as char]
        }) + (decode_word(a.drop_first()) + decode_word(b)));
        assert(decode_word(a + b) =~= decode_word(a) + decode_word(b));
    }
}

/// Decoding is injective on letter words: distinct words read as distinct
/// text.
pub proof fn lemma_decode_injective(a: Seq<u8>, b: Seq<u8>)
    requires
        forall|k: int| 0 <= k < a.len() ==> #[trigger] a[k] < 26,
        forall|k: int| 0 <= k < b.len() ==> #[trigger] b[k] < 26,
        decode_word(a) == decode_word(b),
    ensures
        a == b,
    decreases a.len(),
{
    if a.len() == 0 || b.len() == 0 {
        if a.len() == 0 && b.len() > 0 {
            assert(decode_word(b).len() > 0);
        } else if b.len() == 0 && a.len() > 0 {
            assert(decode_word(a).len() > 0);
        } else {
            assert(a =~= b);
        }
    } else {
        let ca = ((97 + a[0]) as int) as char;
        let cb = ((97 + b[0]) as int) as char;
        assert(decode_word(a)[0] == ca && decode_word(b)[0] == cb);
        assert(ca as int == 97 + a[0] && cb as int == 97 + b[0]);
        assert(a[0] == b[0]);
        if a[0] == 16 {
            assert(decode_word(a).drop_first().drop_first() =~= decode_word(a.drop_first()));
            assert(decode_word(b).drop_first().drop_first() =~= decode_word(b.drop_first()));
        } else {
            assert(decode_word(a).drop_first() =~= decode_word(a.drop_first()));
            assert(decode_word(b).drop_first() =~= decode_word(b.drop_first()));
        }
        lemma_decode_injective(a.drop_first(), b.drop_first());
        assert(a.drop_first().len() == a.len() - 1);
        assert(b.drop_first().len() == b.len() - 1);
        assert forall|k: int| 0 <= k < a.len() implies a[k] == b[k] by {
            if k > 0 {
                assert(a[k] == a.drop_first()[k - 1]);
                assert(b[k] == b.drop_first()[k - 1]);
            }
        }
        assert(a =~= b);
    }
}

/// A simple path cannot have more cells than the board.
pub proof fn lemma_simple_path_bound(
    w: int,
    h: int,
    g: Seq<Option<u8>>,
    path: Seq<usize>,
    word: Seq<u8>,
)
    requires
        w >= 1,
        h >= 1,
        path_ok(w, h, g, path, word),
    ensures
        path.len() <= w * h,
{
    let ints = path.map_values(|x: usize| x as int);
    assert(ints.no_duplicates()) by {
        assert forall|k1: int, k2: int|
            0 <= k1 < ints.len() && 0 <= k2 < ints.len() && k1 != k2 implies ints[k1]
            != ints[k2] by {
            if k1 < k2 {
                assert(path[k1] != path[k2]);
            } else {
                assert(path[k2] != path[k1]);
            }
        }
    }
    ints.unique_seq_to_set();
    assert(ints.to_set().subset_of(set_int_range(0, w * h))) by {
        assert forall|x: int| ints.to_set().contains(x) implies set_int_range(0, w * h).contains(
            x,
        ) by {
            let k = choose|k: int| 0 <= k < ints.len() && ints[k] == x;
            assert(path[k] < w * h);
        }
    }
    lemma_int_range(0, w * h);
    lemma_len_subset(ints.to_set(), set_int_range(0, w * h));
}

/// Extending a simple path by an unvisited adjacent cell holding the next
/// letter keeps it a simple path.
pub proof fn lemma_path_extend(
    w: int,
    h: int,
    g: Seq<Option<u8>>,
    path: Seq<usize>,
    word: Seq<u8>,
    p: usize,
    l: u8,
)
    requires
        path_ok(w, h, g, path, word),
        path.len() >= 1,
        adjacent(w, h, path[path.len() - 1] as int, p as int),
        p < w * h,
        g[p as int] == Some(l),
        !path.contains(p),
    ensures
        path_ok(w, h, g, path.push(p), word.push(l)),
{
    let path2 = path.push(p);
    let word2 = word.push(l);
    assert forall|k: int| 0 <= k < path2.len() implies (#[trigger] path2[k]) < w * h && g[path2[k] as int]
        == Some(word2[k]) by {
        if k < path.len() {
            assert(path2[k] == path[k] && word2[k] == word[k]);
        }
    }
    assert forall|k: int| 1 <= k < path2.len() implies adjacent(
        w,
        h,
        path2[k - 1] as int,
        (#[trigger] path2[k]) as int,
    ) by {
        if k < path.len() {
            assert(path2[k - 1] == path[k - 1] && path2[k] == path[k]);
        } else {
            assert(path2[k - 1] == path[path.len() - 1] && path2[k] == p);
        }
    }
    assert forall|k1: int, k2: int|
        #![trigger path2[k1], path2[k2]]
        0 <= k1 < k2 < path2.len() implies path2[k1] != path2[k2] by {
        if k2 < path.len() {
        } else {
            assert(path2[k2] == p);
            assert(path2[k1] == path[k1]);
            assert(!path.contains(p));
            if path[k1] == p {
                assert(path.contains(p));
            }
        }
    }
}

/// Where a simple path continues past the current cells, its first new
/// cell is an unvisited neighbor of the last cell, holding the next
/// letter.
pub proof fn lemma_path_junction(
    w: int,
    h: int,
    g: Seq<Option<u8>>,
    path: Seq<usize>,
    word: Seq<u8>,
    q: Seq<usize>,
    e: Seq<u8>,
)
    requires
        path.len() == word.len(),
        path.len() >= 1,
        q.len() >= 1,
        e.len() == q.len(),
        path_ok(w, h, g, path + q, word + e),
    ensures
        adjacent(w, h, path[path.len() - 1] as int, q[0] as int),
        q[0] < w * h,
        g[q[0] as int] == Some(e[0]),
        !path.contains(q[0]),
        path_ok(w, h, g, path, word),
{
    let pq = path + q;
    let we = word + e;
    assert(pq[path.len() as int] == q[0] && we[word.len() as int] == e[0]);
    assert(pq[path.len() - 1] == path[path.len() - 1]);
    assert(adjacent(w, h, pq[path.len() - 1] as int, pq[path.len() as int] as int));
    if path.contains(q[0]) {
        let k = choose|k: int| 0 <= k < path.len() && path[k] == q[0];
        assert(pq[k] == q[0]);
        assert(pq[k] != pq[path.len() as int]);
    }
    assert forall|k: int| 0 <= k < path.len() implies (#[trigger] path[k]) < w * h && g[path[k] as int]
        == Some(word[k]) by {
        assert(pq[k] == path[k] && we[k] == word[k]);
    }
    assert forall|k: int| 1 <= k < path.len() implies adjacent(
        w,
        h,
        path[k - 1] as int,
        (#[trigger] path[k]) as int,
    ) by {
        assert(pq[k - 1] == path[k - 1] && pq[k] == path[k]);
    }
    assert forall|k1: int, k2: int|
        #![trigger path[k1], path[k2]]
        0 <= k1 < k2 < path.len() implies path[k1] != path[k2] by {
        assert(pq[k1] == path[k1] && pq[k2] == path[k2]);
    }
}

/// A fixed-first-cell extension is in particular an extension.
proof fn lemma_reach_via_weaken(
    t: Trie,
    w: int,
    h: int,
    g: Seq<Option<u8>>,
    path: Seq<usize>,
    word: Seq<u8>,
    e: Seq<u8>,
    p: usize,
)
    requires
        reach_via(t, w, h, g, path, word, e, p),
    ensures
        reachable_word(t, w, h, g, path, word, e),
{
    let q = choose|q: Seq<usize>|
        q.len() >= 1 && q[0] == p && path_ok(w, h, g, path + q, word + e);
    assert(exists|q2: Seq<usize>| path_ok(w, h, g, path + q2, word + e)) by {
        assert(path_ok(w, h, g, path + q, word + e));
    }
}

/// A cell already on the path starts no extension.
pub proof fn lemma_blocked_cell(
    t: Trie,
    w: int,
    h: int,
    g: Seq<Option<u8>>,
    path: Seq<usize>,
    word: Seq<u8>,
    p: usize,
)
    requires
        path.len() == word.len(),
        path.contains(p),
    ensures
        forall|e: Seq<u8>| !(#[trigger] reach_via(t, w, h, g, path, word, e, p)),
{
    assert forall|e: Seq<u8>| !(#[trigger] reach_via(t, w, h, g, path, word, e, p)) by {
        if reach_via(t, w, h, g, path, word, e, p) {
            let q = choose|q: Seq<usize>|
                q.len() >= 1 && q[0] == p && path_ok(w, h, g, path + q, word + e);
            let pq = path + q;
            let k = choose|k: int| 0 <= k < path.len() && path[k] == p;
            assert(pq[k] == p && pq[path.len() as int] == p);
            assert(path_ok(w, h, g, pq, word + e));
            assert(pq.len() == word.len() + e.len());
            assert(pq[k] != pq[path.len() as int]);
        }
    }
}

/// True when the path already visits cell `p`.
fn contains_cell(path: &Vec<usize>, p: usize) -> (r: bool)
    ensures
        r == path@.contains(p),
{
    let n = path.len();
    let mut k: usize = 0;
    while k < n
        invariant
            k <= n,
            n == path@.len(),
            forall|j: int| 0 <= j < k ==> path@[j] != p,
        decreases n - k,
    {
        if path[k] == p {
            proof {
                assert(path@[k as int] == p);
            }
            return true;
        }
        k = k + 1;
    }
    proof {
        if path@.contains(p) {
            let j = choose|j: int| 0 <= j < path@.len() && path@[j] == p;
            assert(path@[j] != p);
        }
    }
    false
}

/// A plain copy of a letter buffer.
pub(crate) fn copy_letters(v: &Vec<u8>) -> (r: Vec<u8>)
    ensures
        r@ == v@,
{
    let mut r: Vec<u8> = Vec::new();
    let mut k: usize = 0;
    while k < v.len()
        invariant
            k <= v@.len(),
            r@ == v@.subrange(0, k as int),
        decreases v@.len() - k,
    {
        r.push(v[k]);
        k = k + 1;
    }
    proof {
        assert(r@ =~= v@);
    }
    r
}

/// Appends the text of one letter: its lowercase character, with the
/// two-letter game tile restored.
fn append_letter(s: &mut String, v: u8)
    requires
        v < 26,
    ensures
        final(s)@ == old(s)@ + decode_word(seq![v]),
{
    proof {
        lemma_decode_single(v);
    }
    match v {
        0 => {
            s.append("a");
            proof {
                reveal_strlit("a");
                assert(decode_word(seq![v]) =~= "a"@);
            }
        },
        1 => {
            s.append("b");
            proof {
                reveal_strlit("b");
                assert(decode_word(seq![v]) =~= "b"@);
            }
        },
        2 => {
            s.append("c");
            proof {
                reveal_strlit("c");
                assert(decode_word(seq![v]) =~= "c"@);
            }
        },
        3 => {
            s.append("d");
            proof {
                reveal_strlit("d");
                assert(decode_word(seq![v]) =~= "d"@);
            }
        },
        4 => {
            s.append("e");
            proof {
                reveal_strlit("e");
                assert(decode_word(seq![v]) =~= "e"@);
            }
        },
        5 => {
            s.append("f");
            proof {
                reveal_strlit("f");
                assert(decode_word(seq![v]) =~= "f"@);
            }
        },
        6 => {
            s.append("g");
            proof {
                reveal_strlit("g");
                assert(decode_word(seq![v]) =~= "g"@);
            }
        },
        7 => {
            s.append("h");
            proof {
                reveal_strlit("h");
                assert(decode_word(seq![v]) =~= "h"@);
            }
        },
        8 => {
            s.append("i");
            proof {
                reveal_strlit("i");
                assert(decode_word(seq![v]) =~= "i"@);
            }
        },
        9 => {
            s.append("j");
            proof {
                reveal_strlit("j");
                assert(decode_word(seq![v]) =~= "j"@);
            }
        },
        10 => {
            s.append("k");
            proof {
                reveal_strlit("k");
                assert(decode_word(seq![v]) =~= "k"@);
            }
        },
        11 => {
            s.append("l");
            proof {
                reveal_strlit("l");
                assert(decode_word(seq![v]) =~= "l"@);
            }
        },
        12 => {
            s.append("m");
            proof {
                reveal_strlit("m");
                assert(decode_word(seq![v]) =~= "m"@);
            }
        },
        13 => {
            s.append("n");
            proof {
                reveal_strlit("n");
                assert(decode_word(seq![v]) =~= "n"@);
            }
        },
        14 => {
            s.append("o");
            proof {
                reveal_strlit("o");
                assert(decode_word(seq![v]) =~= "o"@);
            }
        },
        15 => {
            s.append("p");
            proof {
                reveal_strlit("p");
                assert(decode_word(seq![v]) =~= "p"@);
            }
        },
        16 => {
            s.append("qu");
            proof {
                reveal_strlit("qu");
                assert(decode_word(seq![v]) =~= "qu"@);
            }
        },
        17 => {
            s.append("r");
            proof {
                reveal_strlit("r");
                assert(decode_word(seq![v]) =~= "r"@);
            }
        },
        18 => {
            s.append("s");
            proof {
                reveal_strlit("s");
                assert(decode_word(seq![v]) =~= "s"@);
            }
        },
        19 => {
            s.append("t");
            proof {
                reveal_strlit("t");
                assert(decode_word(seq![v]) =~= "t"@);
            }
        },
        20 => {
            s.append("u");
            proof {
                reveal_strlit("u");
                assert(decode_word(seq![v]) =~= "u"@);
            }
        },
        21 => {
            s.append("v");
            proof {
                reveal_strlit("v");
                assert(decode_word(seq![v]) =~= "v"@);
            }
        },
        22 => {
            s.append("w");
            proof {
                reveal_strlit("w");
                assert(decode_word(seq![v]) =~= "w"@);
            }
        },
        23 => {
            s.append("x");
            proof {
                reveal_strlit("x");
                assert(decode_word(seq![v]) =~= "x"@);
            }
        },
        24 => {
            s.append("y");
            proof {
                reveal_strlit("y");
                assert(decode_word(seq![v]) =~= "y"@);
            }
        },
        _ => {
            s.append("z");
            proof {
                reveal_strlit("z");
                assert(v == 25);
                assert(decode_word(seq![v]) =~= "z"@);
            }
        },
    }
}

/// The text of one letter on its own.
proof fn lemma_decode_single(v: u8)
    ensures
        decode_word(seq![v]) == if v == 16 {
            seq![((97 + v) as int) as char, 'u']
        } else {
            seq![((97 + v) as int) as char]
        },
{
    assert(seq![v].drop_first() =~= Seq::<u8>::empty());
    assert(decode_word(Seq::<u8>::empty()) == Seq::<char>::empty());
    if v == 16 {
        assert(decode_word(seq![v]) =~= seq![((97 + v) as int) as char, 'u']);
    } else {
        assert(decode_word(seq![v]) =~= seq![((97 + v) as int) as char]);
    }
}

/// The text of a word of letter indices: each letter becomes its
/// lowercase character, and the letter standing in for the two-letter
/// game tile is expanded back to the pair.
pub fn idx_vec_to_string(vec: Vec<u8>) -> (r: String)
    requires
        forall|k: int| 0 <= k < vec@.len() ==> #[trigger] vec@[k] < 26,
    ensures
        r@ == decode_word(vec@),
{
    let mut s = String::new();
    let mut k: usize = 0;
    proof {
        assert(s@ =~= decode_word(vec@.take(0)));
    }
    while k < vec.len()
        invariant
            k <= vec@.len(),
            forall|j: int| 0 <= j < vec@.len() ==> #[trigger] vec@[j] < 26,
            s@ == decode_word(vec@.take(k as int)),
        decreases vec@.len() - k,
    {
        append_letter(&mut s, vec[k]);
        proof {
            lemma_decode_concat(vec@.take(k as int), seq![vec@[k as int]]);
            assert(vec@.take(k + 1) =~= vec@.take(k as int) + seq![vec@[k as int]]);
        }
        k = k + 1;
    }
    proof {
        assert(vec@.take(vec@.len() as int) =~= vec@);
    }
    s
}


/// A lookup through a present child: the word `l·e` of a node is the word
/// `e` of its child for `l`.
proof fn lemma_lookup_cons(t: &Trie, l: u8, e: Seq<u8>)
    requires
        t.children@.len() == 26,
        l < 26,
        t.children@[l as int] is Some,
    ensures
        t.lookup(seq![l] + e) == t.children@[l as int]->0.lookup(e),
        lookup_word_id(*t, seq![l] + e) == lookup_word_id(*t.children@[l as int]->0, e),
{
    assert((seq![l] + e).len() == 1 + e.len());
    assert((seq![l] + e)[0] == l);
    assert((seq![l] + e).drop_first() =~= e);
}

/// Prepending the same letter preserves distinctness of words.
proof fn lemma_cons_inj(l: u8, e1: Seq<u8>, e2: Seq<u8>)
    requires
        seq![l] + e1 == seq![l] + e2,
    ensures
        e1 == e2,
{
    assert((seq![l] + e1).drop_first() =~= e1);
    assert((seq![l] + e2).drop_first() =~= e2);
}

/// Distinct word ids descend to every child subtree.
proof fn lemma_distinct_ids_child(t: &Trie, l: u8, child: Trie)
    requires
        t.children@.len() == 26,
        l < 26,
        t.children@[l as int] is Some,
        child == *t.children@[l as int]->0,
        distinct_ids(*t),
    ensures
        distinct_ids(child),
{
    assert forall|p: Seq<u8>| #[trigger] lookup_word_id(child, p) is Some implies lookup_word_id(
        child,
        p,
    )->0 < usize::MAX by {
        lemma_lookup_cons(t, l, p);
        assert(lookup_word_id(*t, seq![l] + p) is Some);
    }
    assert forall|p1: Seq<u8>, p2: Seq<u8>|
        #![trigger lookup_word_id(child, p1), lookup_word_id(child, p2)]
        lookup_word_id(child, p1) is Some && lookup_word_id(child, p2) is Some && p1
        != p2 implies lookup_word_id(child, p1) != lookup_word_id(child, p2) by {
        lemma_lookup_cons(t, l, p1);
        lemma_lookup_cons(t, l, p2);
        if seq![l] + p1 == seq![l] + p2 {
            lemma_cons_inj(l, p1, p2);
        }
        assert(lookup_word_id(*t, seq![l] + p1) != lookup_word_id(*t, seq![l] + p2));
    }
}

/// Descending into the child for letter `l` through cell `p` renames the
/// words: `e` is reachable in the child from the extended path exactly
/// when `l·e` is reachable here through first cell `p`.
#[verifier::rlimit(40)]
proof fn lemma_reach_cons(
    t: &Trie,
    child: Trie,
    w: int,
    h: int,
    g: Seq<Option<u8>>,
    base_path: Seq<usize>,
    base_word: Seq<u8>,
    l: u8,
    p: usize,
)
    requires
        t.children@.len() == 26,
        l < 26,
        t.children@[l as int] is Some,
        child == *t.children@[l as int]->0,
        base_path.len() == base_word.len(),
        path_ok(w, h, g, base_path.push(p), base_word.push(l)),
    ensures
        forall|e2: Seq<u8>| #[trigger]
            reachable_word(child, w, h, g, base_path.push(p), base_word.push(l), e2) <==> reach_via(
                *t,
                w,
                h,
                g,
                base_path,
                base_word,
                seq![l] + e2,
                p,
            ) && e2.len() >= 1,
{
    assert forall|e2: Seq<u8>| #[trigger]
        reachable_word(child, w, h, g, base_path.push(p), base_word.push(l), e2) implies (reach_via(
        *t,
        w,
        h,
        g,
        base_path,
        base_word,
        seq![l] + e2,
        p,
    ) && e2.len() >= 1) by {
        lemma_lookup_cons(t, l, e2);
        let q2 = choose|q2: Seq<usize>|
            path_ok(w, h, g, base_path.push(p) + q2, base_word.push(l) + e2);
        let q = seq![p] + q2;
        assert(base_path + q =~= base_path.push(p) + q2);
        assert(base_word + (seq![l] + e2) =~= base_word.push(l) + e2);
        assert(q.len() >= 1 && q[0] == p);
        assert(path_ok(w, h, g, base_path + q, base_word + (seq![l] + e2)));
        assert((seq![l] + e2).len() >= 1);
    }
    assert forall|e2: Seq<u8>|
        reach_via(*t, w, h, g, base_path, base_word, seq![l] + e2, p) && e2.len()
        >= 1 implies #[trigger] reachable_word(
        child,
        w,
        h,
        g,
        base_path.push(p),
        base_word.push(l),
        e2,
    ) by {
        lemma_lookup_cons(t, l, e2);
        let q = choose|q: Seq<usize>|
            q.len() >= 1 && q[0] == p && path_ok(w, h, g, base_path + q, base_word + (seq![l]
                + e2));
        let q2 = q.drop_first();
        assert(base_path.push(p) + q2 =~= base_path + q);
        assert(base_word.push(l) + e2 =~= base_word + (seq![l] + e2));
        assert(path_ok(w, h, g, base_path.push(p) + q2, base_word.push(l) + e2));
    }
}

/// A word of the subtree must start with a letter whose child exists.
proof fn lemma_no_child_no_word(t: &Trie, e: Seq<u8>)
    requires
        t.wf(),
        e.len() >= 1,
        e[0] >= 26 || t.children@[e[0] as int] is None,
    ensures
        lookup_word_id(*t, e) is None,
{
}


/// No two entries of the output read the same.
pub open spec fn no_dup_strings(out: Seq<String>) -> bool {
    forall|k1: int, k2: int|
        #![trigger out[k1], out[k2]]
        0 <= k1 < k2 < out.len() ==> out[k1]@ != out[k2]@
}

/// Words whose ids are not yet tracked have not been emitted.
pub open spec fn fresh_untracked_unemitted(
    t: Trie,
    w: int,
    h: int,
    g: Seq<Option<u8>>,
    path: Seq<usize>,
    word: Seq<u8>,
    words: BitSet,
    out: Seq<String>,
) -> bool {
    forall|e: Seq<u8>| #[trigger]
        reachable_word(t, w, h, g, path, word, e) && !words.spec_get(
            lookup_word_id(t, e)->0 as nat,
        ) ==> !strings_contain(out, decode_word(word + e))
}

/// Appending a text not yet present keeps the output duplicate-free.
proof fn lemma_no_dup_push(out: Seq<String>, t: String)
    requires
        no_dup_strings(out),
        !strings_contain(out, t@),
    ensures
        no_dup_strings(out.push(t)),
{
    assert forall|k1: int, k2: int|
        #![trigger out.push(t)[k1], out.push(t)[k2]]
        0 <= k1 < k2 < out.push(t).len() implies out.push(t)[k1]@ != out.push(t)[k2]@ by {
        if k2 == out.len() {
            assert(out.push(t)[k1] == out[k1]);
            if out[k1]@ == t@ {
                assert(strings_contain(out, t@));
            }
        } else {
            assert(out.push(t)[k1] == out[k1] && out.push(t)[k2] == out[k2]);
        }
    }
}

/// Every letter of a path present in the trie lies in the alphabet.
proof fn lemma_lookup_letters(t: Trie, e: Seq<u8>)
    requires
        t.lookup(e) is Some,
    ensures
        forall|k: int| 0 <= k < e.len() ==> #[trigger] e[k] < 26,
    decreases e.len(),
{
    if e.len() > 0 {
        assert(e[0] < 26);
        lemma_lookup_letters(*t.children@[e[0] as int]->0, e.drop_first());
        assert forall|k: int| 0 <= k < e.len() implies #[trigger] e[k] < 26 by {
            if k > 0 {
                assert(e[k] == e.drop_first()[k - 1]);
            }
        }
    }
}

/// Concatenation after a fixed front is injective.
pub(crate) proof fn lemma_concat_inj(base: Seq<u8>, x: Seq<u8>, y: Seq<u8>)
    requires
        base + x == base + y,
    ensures
        x == y,
{
    assert((base + x).len() == base.len() + x.len());
    assert((base + y).len() == base.len() + y.len());
    assert(x.len() == y.len());
    assert forall|k: int| 0 <= k < x.len() implies x[k] == y[k] by {
        assert(0 <= base.len() + k < (base + x).len());
        assert((base + x)[base.len() + k] == x[k]);
        assert((base + y)[base.len() + k] == y[k]);
        assert((base + x)[base.len() + k] == (base + y)[base.len() + k]);
    }
    assert(x =~= y);
}

/// Two words over the alphabet with one text are one word.
proof fn lemma_same_text_same_word(t: Trie, base: Seq<u8>, e1: Seq<u8>, e2: Seq<u8>)
    requires
        forall|k: int| 0 <= k < base.len() ==> #[trigger] base[k] < 26,
        lookup_word_id(t, e1) is Some,
        lookup_word_id(t, e2) is Some,
        decode_word(base + e1) == decode_word(base + e2),
    ensures
        e1 == e2,
        lookup_word_id(t, e1) == lookup_word_id(t, e2),
{
    lemma_lookup_letters(t, e1);
    lemma_lookup_letters(t, e2);
    assert forall|k: int| 0 <= k < (base + e1).len() implies #[trigger] (base + e1)[k] < 26 by {
        if k >= base.len() {
            assert((base + e1)[k] == e1[k - base.len()]);
        }
    }
    assert forall|k: int| 0 <= k < (base + e2).len() implies #[trigger] (base + e2)[k] < 26 by {
        if k >= base.len() {
            assert((base + e2)[k] == e2[k - base.len()]);
        }
    }
    lemma_decode_injective(base + e1, base + e2);
    lemma_concat_inj(base, e1, e2);
}


/// One step of the eager walk: explores every extension of the current
/// path through `parent`'s subtree.  On return the word and path buffers
/// are as they were; the tracker holds exactly the old ids plus the id of
/// every word of the subtree reachable from here; and the output gained
/// exactly the text of each such word whose id was not yet tracked.
#[verifier::rlimit(100)]
#[verifier::spinoff_prover]
pub fn descend_radix(
    parent: &Trie,
    board: &RadixBoggleBoard,
    word: &mut Vec<u8>,
    path: &mut Vec<usize>,
    words: &mut BitSet,
    out: &mut Vec<String>,
)
    requires
        parent.wf(),
        board.wf(),
        distinct_ids(*parent),
        old(words).wf(),
        old(word)@.len() == old(path)@.len(),
        old(word)@.len() >= 1,
        forall|k: int| 0 <= k < old(word)@.len() ==> #[trigger] old(word)@[k] < 26,
        path_ok(
            board.width as int,
            board.height as int,
            board.grid@,
            old(path)@,
            old(word)@,
        ),
    ensures
        final(word)@ == old(word)@,
        final(path)@ == old(path)@,
        final(words).wf(),
        forall|id: usize| #[trigger]
            final(words).spec_get(id as nat) <==> old(words).spec_get(id as nat) || (exists|
                e: Seq<u8>,
            | #[trigger]
                reachable_word(
                    *parent,
                    board.width as int,
                    board.height as int,
                    board.grid@,
                    old(path)@,
                    old(word)@,
                    e,
                ) && lookup_word_id(*parent, e) == Some(id)),
        forall|s: Seq<char>| #[trigger]
            strings_contain(final(out)@, s) <==> strings_contain(old(out)@, s) || (exists|
                e: Seq<u8>,
            | #[trigger]
                reachable_word(
                    *parent,
                    board.width as int,
                    board.height as int,
                    board.grid@,
                    old(path)@,
                    old(word)@,
                    e,
                ) && s == decode_word(old(word)@ + e) && !old(words).spec_get(
                    lookup_word_id(*parent, e)->0 as nat,
                )),
        (no_dup_strings(old(out)@) && fresh_untracked_unemitted(
            *parent,
            board.width as int,
            board.height as int,
            board.grid@,
            old(path)@,
            old(word)@,
            *old(words),
            old(out)@,
        )) ==> no_dup_strings(final(out)@),
    decreases board.width * board.height - old(path)@.len(),
{
    let ghost wb = board.width as int;
    let ghost hb = board.height as int;
    let ghost g = board.grid@;
    let ghost base_word = word@;
    let ghost base_path = path@;
    let ghost hh = no_dup_strings(out@) && fresh_untracked_unemitted(
        *parent,
        wb,
        hb,
        g,
        base_path,
        base_word,
        *words,
        out@,
    );
    let last = path[path.len() - 1];
    let mut it = parent.iter();
    loop
        invariant_except_break
            it.wf(),
            it.trie == parent,
            parent.wf(),
            board.wf(),
            distinct_ids(*parent),
            words.wf(),
            wb == board.width as int,
            hb == board.height as int,
            g == board.grid@,
            base_word == old(word)@,
            base_path == old(path)@,
            word@ == base_word,
            path@ == base_path,
            base_word.len() == base_path.len(),
            base_word.len() >= 1,
            forall|k: int| 0 <= k < base_word.len() ==> #[trigger] base_word[k] < 26,
            path_ok(wb, hb, g, base_path, base_word),
            last == base_path[base_path.len() - 1],
            hh ==> no_dup_strings(out@),
            hh == (no_dup_strings(old(out)@) && fresh_untracked_unemitted(
                *parent,
                wb,
                hb,
                g,
                base_path,
                base_word,
                *old(words),
                old(out)@,
            )),
            forall|id: usize| #[trigger]
                words.spec_get(id as nat) <==> old(words).spec_get(id as nat) || (exists|
                    e: Seq<u8>,
                | #[trigger]
                    reachable_word(*parent, wb, hb, g, base_path, base_word, e) && (e[0] as u32)
                        < it.iter.i && lookup_word_id(*parent, e) == Some(id)),
            forall|s: Seq<char>| #[trigger]
                strings_contain(out@, s) <==> strings_contain(old(out)@, s) || (exists|e: Seq<u8>|
                    #[trigger] reachable_word(*parent, wb, hb, g, base_path, base_word, e) && (
                    e[0] as u32) < it.iter.i && s == decode_word(base_word + e) && !old(
                        words,
                    ).spec_get(lookup_word_id(*parent, e)->0 as nat)),
        ensures
            word@ == base_word,
            path@ == base_path,
            words.wf(),
            hh ==> no_dup_strings(out@),
            forall|id: usize| #[trigger]
                words.spec_get(id as nat) <==> old(words).spec_get(id as nat) || (exists|
                    e: Seq<u8>,
                | #[trigger]
                    reachable_word(*parent, wb, hb, g, base_path, base_word, e)
                        && lookup_word_id(*parent, e) == Some(id)),
            forall|s: Seq<char>| #[trigger]
                strings_contain(out@, s) <==> strings_contain(old(out)@, s) || (exists|e: Seq<u8>|
                    #[trigger] reachable_word(*parent, wb, hb, g, base_path, base_word, e) && s
                        == decode_word(base_word + e) && !old(words).spec_get(
                        lookup_word_id(*parent, e)->0 as nat,
                    )),
        decreases 33 - it.iter.i,
    {
        let ghost cur = it.iter.i;
        match it.next() {
            None => {
                proof {
                    assert forall|e: Seq<u8>| #[trigger]
                        reachable_word(*parent, wb, hb, g, base_path, base_word, e) implies (
                    e[0] as u32) < cur by {
                        if (e[0] as u32) >= cur {
                            if e[0] < 26 {
                                assert(!parent.child_set.spec_get(e[0] as u32));
                                assert(parent.children@[e[0] as int] is None);
                            }
                            lemma_no_child_no_word(parent, e);
                        }
                    }
                }
                break ;
            },
            Some((child, l)) => {
                proof {
                    // letters between the cursor and `l` have no child
                    assert forall|e: Seq<u8>| #[trigger]
                        reachable_word(*parent, wb, hb, g, base_path, base_word, e) && (
                    e[0] as u32) < l as u32 implies (e[0] as u32) < cur by {
                        if (e[0] as u32) >= cur {
                            assert(!parent.child_set.spec_get(e[0] as u32));
                            assert(parent.children@[e[0] as int] is None);
                            lemma_no_child_no_word(parent, e);
                        }
                    }
                }
                word.push(l);
                let mut nbrs = board.neighbors(last, l);
                let ghost mut done: Seq<usize> = Seq::empty();
                proof {
                    assert(done + nbrs.remaining() =~= letter_neighbors(
                        wb,
                        hb,
                        g,
                        last as int,
                        l,
                    ));
                    assert(word@ =~= base_word.push(l));
                    // restate the invariant with the guard moved up to `l`
                    assert forall|id: usize| #[trigger]
                        words.spec_get(id as nat) <==> old(words).spec_get(id as nat) || (exists|
                            e: Seq<u8>,
                        | #[trigger]
                            reachable_word(*parent, wb, hb, g, base_path, base_word, e) && (
                            e[0] as u32) < l as u32 && lookup_word_id(*parent, e) == Some(
                                id,
                            )) by {
                        if exists|e: Seq<u8>| #[trigger]
                            reachable_word(*parent, wb, hb, g, base_path, base_word, e) && (
                        e[0] as u32) < l as u32 && lookup_word_id(*parent, e) == Some(id) {
                            let e = choose|e: Seq<u8>|
                                #[trigger] reachable_word(*parent, wb, hb, g, base_path, base_word, e)
                                    && (e[0] as u32) < l as u32 && lookup_word_id(*parent, e)
                                    == Some(id);
                            assert((e[0] as u32) < cur);
                        }
                    }
                    assert forall|s: Seq<char>| #[trigger]
                        strings_contain(out@, s) <==> strings_contain(old(out)@, s) || (exists|
                            e: Seq<u8>,
                        | #[trigger]
                            reachable_word(*parent, wb, hb, g, base_path, base_word, e) && (
                            e[0] as u32) < l as u32 && s == decode_word(base_word + e) && !old(
                                words,
                            ).spec_get(lookup_word_id(*parent, e)->0 as nat)) by {
                        if exists|e: Seq<u8>| #[trigger]
                            reachable_word(*parent, wb, hb, g, base_path, base_word, e) && (
                        e[0] as u32) < l as u32 && s == decode_word(base_word + e) && !old(
                            words,
                        ).spec_get(lookup_word_id(*parent, e)->0 as nat) {
                            let e = choose|e: Seq<u8>|
                                #[trigger] reachable_word(*parent, wb, hb, g, base_path, base_word, e)
                                    && (e[0] as u32) < l as u32 && s == decode_word(base_word + e)
                                    && !old(words).spec_get(
                                    lookup_word_id(*parent, e)->0 as nat,
                                );
                            assert((e[0] as u32) < cur);
                        }
                    }
                }
                loop
                    invariant_except_break
                        nbrs.wf(),
                        nbrs.grid@ == g,
                        nbrs.letter@ == l,
                        nbrs.width == board.width,
                        nbrs.height@ == hb,
                        nbrs.idx == last,
                        done + nbrs.remaining() == letter_neighbors(wb, hb, g, last as int, l),
                        parent.wf(),
                        board.wf(),
                        distinct_ids(*parent),
                        words.wf(),
                        wb == board.width as int,
                        hb == board.height as int,
                        g == board.grid@,
                        base_word == old(word)@,
                        base_path == old(path)@,
                        word@ == base_word.push(l),
                        path@ == base_path,
                        base_word.len() == base_path.len(),
                        base_word.len() >= 1,
                        forall|k: int| 0 <= k < base_word.len() ==> #[trigger] base_word[k] < 26,
                        path_ok(wb, hb, g, base_path, base_word),
                        last == base_path[base_path.len() - 1],
                        l < 26,
                        parent.children@[l as int] is Some,
                        *child == *parent.children@[l as int]->0,
                        child.wf(),
                        hh ==> no_dup_strings(out@),
                        hh == (no_dup_strings(old(out)@) && fresh_untracked_unemitted(
                            *parent,
                            wb,
                            hb,
                            g,
                            base_path,
                            base_word,
                            *old(words),
                            old(out)@,
                        )),
                        forall|id: usize| #[trigger]
                            words.spec_get(id as nat) <==> old(words).spec_get(id as nat) || (
                            exists|e: Seq<u8>| #[trigger]
                                reachable_word(*parent, wb, hb, g, base_path, base_word, e) && (
                                e[0] as u32) < l as u32 && lookup_word_id(*parent, e) == Some(
                                    id,
                                )) || (exists|e: Seq<u8>, p: usize|
                                done.contains(p) && #[trigger] reach_via(
                                    *parent,
                                    wb,
                                    hb,
                                    g,
                                    base_path,
                                    base_word,
                                    e,
                                    p,
                                ) && e[0] == l && lookup_word_id(*parent, e) == Some(id)),
                        forall|s: Seq<char>| #[trigger]
                            strings_contain(out@, s) <==> strings_contain(old(out)@, s) || (exists|
                                e: Seq<u8>,
                            | #[trigger]
                                reachable_word(*parent, wb, hb, g, base_path, base_word, e) && (
                                e[0] as u32) < l as u32 && s == decode_word(base_word + e) && !old(
                                    words,
                                ).spec_get(lookup_word_id(*parent, e)->0 as nat)) || (exists|
                                e: Seq<u8>,
                                p: usize,
                            |
                                done.contains(p) && #[trigger] reach_via(
                                    *parent,
                                    wb,
                                    hb,
                                    g,
                                    base_path,
                                    base_word,
                                    e,
                                    p,
                                ) && e[0] == l && s == decode_word(base_word + e) && !old(
                                    words,
                                ).spec_get(lookup_word_id(*parent, e)->0 as nat)),
                    ensures
                        word@ == base_word.push(l),
                        path@ == base_path,
                        words.wf(),
                        hh ==> no_dup_strings(out@),
                        done == letter_neighbors(wb, hb, g, last as int, l),
                        forall|id: usize| #[trigger]
                            words.spec_get(id as nat) <==> old(words).spec_get(id as nat) || (
                            exists|e: Seq<u8>| #[trigger]
                                reachable_word(*parent, wb, hb, g, base_path, base_word, e) && (
                                e[0] as u32) < l as u32 && lookup_word_id(*parent, e) == Some(
                                    id,
                                )) || (exists|e: Seq<u8>, p: usize|
                                done.contains(p) && #[trigger] reach_via(
                                    *parent,
                                    wb,
                                    hb,
                                    g,
                                    base_path,
                                    base_word,
                                    e,
                                    p,
                                ) && e[0] == l && lookup_word_id(*parent, e) == Some(id)),
                        forall|s: Seq<char>| #[trigger]
                            strings_contain(out@, s) <==> strings_contain(old(out)@, s) || (exists|
                                e: Seq<u8>,
                            | #[trigger]
                                reachable_word(*parent, wb, hb, g, base_path, base_word, e) && (
                                e[0] as u32) < l as u32 && s == decode_word(base_word + e) && !old(
                                    words,
                                ).spec_get(lookup_word_id(*parent, e)->0 as nat)) || (exists|
                                e: Seq<u8>,
                                p: usize,
                            |
                                done.contains(p) && #[trigger] reach_via(
                                    *parent,
                                    wb,
                                    hb,
                                    g,
                                    base_path,
                                    base_word,
                                    e,
                                    p,
                                ) && e[0] == l && s == decode_word(base_word + e) && !old(
                                    words,
                                ).spec_get(lookup_word_id(*parent, e)->0 as nat)),
                    decreases nbrs.remaining().len(),
                {
                    let ghost done0 = done;
                    match nbrs.next() {
                        None => {
                            proof {
                                assert(done + nbrs.remaining() =~= done);
                                assert(done =~= letter_neighbors(wb, hb, g, last as int, l));
                            }
                            break ;
                        },
                        Some(pos) => {
                            proof {
                                done = done + seq![pos];
                                assert(done0 + (seq![pos] + nbrs.remaining()) =~= done
                                    + nbrs.remaining());
                                assert(letter_neighbors(wb, hb, g, last as int, l).contains(pos))
                                    by {
                                    assert(letter_neighbors(wb, hb, g, last as int, l)[
                                    done0.len() as int] == pos);
                                }
                                crate::grid::lemma_letter_neighbors_exact(
                                    wb,
                                    hb,
                                    g,
                                    last as int,
                                    l,
                                );
                                assert(adjacent(wb, hb, last as int, pos as int) && g[pos as int]
                                    == Some(l));
                            }
                            if !contains_cell(path, pos) {
                                proof {
                                    lemma_path_extend(wb, hb, g, base_path, base_word, pos, l);
                                    assert(base_path.push(pos).len() <= wb * hb) by {
                                        lemma_simple_path_bound(
                                            wb,
                                            hb,
                                            g,
                                            base_path.push(pos),
                                            base_word.push(l),
                                        );
                                    }
                                    lemma_lookup_cons(parent, l, Seq::<u8>::empty());
                                    assert(seq![l] + Seq::<u8>::empty() =~= seq![l]);
                                    assert(child.lookup(Seq::<u8>::empty()) == Some(
                                        child.node_type,
                                    ));
                                }
                                path.push(pos);
                                let ghost words_pre = *words;
                                let ghost out_pre = out@;
                                match child.node_type() {
                                    NodeType::Word(id) => {
                                        proof {
                                            assert(lookup_word_id(*parent, seq![l]) == Some(id));
                                            assert(id < usize::MAX);
                                        }
                                        if !words.get(id) {
                                            words.add(id);
                                            let text = idx_vec_to_string(copy_letters(word));
                                            proof {
                                                lemma_push_contains(out@, text);
                                                assert(word@ =~= base_word + seq![l]);
                                                assert(reach_via(
                                                    *parent,
                                                    wb,
                                                    hb,
                                                    g,
                                                    base_path,
                                                    base_word,
                                                    seq![l],
                                                    pos,
                                                )) by {
                                                    let q = seq![pos];
                                                    assert(q.len() == 1 && q[0] == pos);
                                                    assert(base_path + q =~= base_path.push(pos));
                                                    assert(base_word + seq![l] =~= base_word.push(
                                                        l,
                                                    ));
                                                    assert(path_ok(
                                                        wb,
                                                        hb,
                                                        g,
                                                        base_path + q,
                                                        base_word + seq![l],
                                                    ));
                                                    assert(exists|q2: Seq<usize>|
                                                        q2.len() >= 1 && q2[0] == pos && path_ok(
                                                            wb,
                                                            hb,
                                                            g,
                                                            base_path + q2,
                                                            base_word + seq![l],
                                                        )) by {
                                                        assert(q.len() >= 1 && q[0] == pos
                                                            && path_ok(
                                                            wb,
                                                            hb,
                                                            g,
                                                            base_path + q,
                                                            base_word + seq![l],
                                                        ));
                                                    }
                                                }
                                                if hh {
                                                    // this word's text is not yet in the output
                                                    let s0 = decode_word(base_word + seq![l]);
                                                    assert(reachable_word(
                                                        *parent,
                                                        wb,
                                                        hb,
                                                        g,
                                                        base_path,
                                                        base_word,
                                                        seq![l],
                                                    ));
                                                    assert(!old(words).spec_get(id as nat)) by {
                                                        if old(words).spec_get(id as nat) {
                                                            assert(words_pre.spec_get(id as nat));
                                                        }
                                                    }
                                                    assert(!strings_contain(out@, s0)) by {
                                                        if strings_contain(out@, s0) {
                                                            if strings_contain(old(out)@, s0) {
                                                                assert(!strings_contain(
                                                                    old(out)@,
                                                                    decode_word(
                                                                        base_word + seq![l],
                                                                    ),
                                                                ));
                                                            } else if exists|e: Seq<u8>|
                                                                #[trigger] reachable_word(
                                                                    *parent,
                                                                    wb,
                                                                    hb,
                                                                    g,
                                                                    base_path,
                                                                    base_word,
                                                                    e,
                                                                ) && (e[0] as u32) < l as u32
                                                                    && s0 == decode_word(
                                                                    base_word + e,
                                                                ) && !old(words).spec_get(
                                                                    lookup_word_id(
                                                                        *parent,
                                                                        e,
                                                                    )->0 as nat,
                                                                ) {
                                                                let e = choose|e: Seq<u8>|
                                                                    #[trigger] reachable_word(
                                                                        *parent,
                                                                        wb,
                                                                        hb,
                                                                        g,
                                                                        base_path,
                                                                        base_word,
                                                                        e,
                                                                    ) && (e[0] as u32) < l as u32
                                                                        && s0 == decode_word(
                                                                        base_word + e,
                                                                    ) && !old(words).spec_get(
                                                                        lookup_word_id(
                                                                            *parent,
                                                                            e,
                                                                        )->0 as nat,
                                                                    );
                                                                lemma_same_text_same_word(
                                                                    *parent,
                                                                    base_word,
                                                                    e,
                                                                    seq![l],
                                                                );
                                                                assert(e[0] == l);
                                                            } else {
                                                                let (e, p) = choose|
                                                                    e: Seq<u8>,
                                                                    p: usize,
                                                                |
                                                                    done0.contains(p)
                                                                        && #[trigger] reach_via(
                                                                        *parent,
                                                                        wb,
                                                                        hb,
                                                                        g,
                                                                        base_path,
                                                                        base_word,
                                                                        e,
                                                                        p,
                                                                    ) && e[0] == l && s0
                                                                        == decode_word(
                                                                        base_word + e,
                                                                    ) && !old(words).spec_get(
                                                                        lookup_word_id(
                                                                            *parent,
                                                                            e,
                                                                        )->0 as nat,
                                                                    );
                                                                lemma_same_text_same_word(
                                                                    *parent,
                                                                    base_word,
                                                                    e,
                                                                    seq![l],
                                                                );
                                                                assert(lookup_word_id(*parent, e)
                                                                    == Some(id));
                                                                assert(words_pre.spec_get(
                                                                    id as nat,
                                                                ));
                                                            }
                                                        }
                                                    }
                                                    assert(text@ == s0);
                                                    lemma_no_dup_push(out@, text);
                                                }
                                            }
                                            out.push(text);
                                        }
                                    },
                                    _ => {},
                                }
                                let ghost words_mid = *words;
                                let ghost out_mid = out@;
                                proof {
                                    lemma_distinct_ids_child(parent, l, *child);
                                    lemma_reach_cons(
                                        parent,
                                        *child,
                                        wb,
                                        hb,
                                        g,
                                        base_path,
                                        base_word,
                                        l,
                                        pos,
                                    );
                                    assert(path@ =~= base_path.push(pos));
                                    assert(word@ =~= base_word.push(l));
                                    if hh {
                                        // the recursive call may not re-emit anything:
                                        // its fresh words are not yet in the output
                                        lemma_lookup_cons_all(parent, l);
                                        let cw0 = *child;
                                        let bp0 = base_path.push(pos);
                                        let bw0 = base_word.push(l);
                                        assert(fresh_untracked_unemitted(
                                            cw0,
                                            wb,
                                            hb,
                                            g,
                                            bp0,
                                            bw0,
                                            *words,
                                            out@,
                                        )) by {
                                            assert forall|e2: Seq<u8>| #[trigger]
                                                reachable_word(cw0, wb, hb, g, bp0, bw0, e2)
                                                    && !words.spec_get(
                                                    lookup_word_id(cw0, e2)->0 as nat,
                                                ) implies !strings_contain(
                                                out@,
                                                decode_word(bw0 + e2),
                                            ) by {
                                                let e = seq![l] + e2;
                                                assert(reach_via(
                                                    *parent,
                                                    wb,
                                                    hb,
                                                    g,
                                                    base_path,
                                                    base_word,
                                                    e,
                                                    pos,
                                                ));
                                                lemma_reach_via_weaken(
                                                    *parent,
                                                    wb,
                                                    hb,
                                                    g,
                                                    base_path,
                                                    base_word,
                                                    e,
                                                    pos,
                                                );
                                                assert(lookup_word_id(*parent, e)
                                                    == lookup_word_id(cw0, e2));
                                                let ide = lookup_word_id(*parent, e)->0;
                                                let s1 = decode_word(base_word + e);
                                                assert(decode_word(bw0 + e2) == s1) by {
                                                    assert(bw0 + e2 =~= base_word + e);
                                                }
                                                if strings_contain(out@, s1) {
                                                    if !strings_contain(out_pre, s1) {
                                                        // it would be the text emitted just
                                                        // above, but that names a shorter word
                                                        assert(s1 == decode_word(
                                                            base_word + seq![l],
                                                        ));
                                                        lemma_same_text_same_word(
                                                            *parent,
                                                            base_word,
                                                            e,
                                                            seq![l],
                                                        );
                                                        assert(e2.len() >= 1);
                                                        assert((seq![l] + e2).len() >= 2);
                                                    } else {
                                                        assert(!old(words).spec_get(
                                                            ide as nat,
                                                        )) by {
                                                            if old(words).spec_get(ide as nat) {
                                                                assert(words_pre.spec_get(
                                                                    ide as nat,
                                                                ));
                                                            }
                                                        }
                                                        if strings_contain(old(out)@, s1) {
                                                            assert(!strings_contain(
                                                                old(out)@,
                                                                decode_word(base_word + e),
                                                            ));
                                                        } else if exists|e3: Seq<u8>|
                                                            #[trigger] reachable_word(
                                                                *parent,
                                                                wb,
                                                                hb,
                                                                g,
                                                                base_path,
                                                                base_word,
                                                                e3,
                                                            ) && (e3[0] as u32) < l as u32 && s1
                                                                == decode_word(base_word + e3)
                                                                && !old(words).spec_get(
                                                                lookup_word_id(
                                                                    *parent,
                                                                    e3,
                                                                )->0 as nat,
                                                            ) {
                                                            let e3 = choose|e3: Seq<u8>|
                                                                #[trigger] reachable_word(
                                                                    *parent,
                                                                    wb,
                                                                    hb,
                                                                    g,
                                                                    base_path,
                                                                    base_word,
                                                                    e3,
                                                                ) && (e3[0] as u32) < l as u32
                                                                    && s1 == decode_word(
                                                                    base_word + e3,
                                                                ) && !old(words).spec_get(
                                                                    lookup_word_id(
                                                                        *parent,
                                                                        e3,
                                                                    )->0 as nat,
                                                                );
                                                            lemma_same_text_same_word(
                                                                *parent,
                                                                base_word,
                                                                e3,
                                                                e,
                                                            );
                                                            assert(e3[0] == l);
                                                        } else {
                                                            let (e3, p3) = choose|
                                                                e3: Seq<u8>,
                                                                p3: usize,
                                                            |
                                                                done0.contains(p3)
                                                                    && #[trigger] reach_via(
                                                                    *parent,
                                                                    wb,
                                                                    hb,
                                                                    g,
                                                                    base_path,
                                                                    base_word,
                                                                    e3,
                                                                    p3,
                                                                ) && e3[0] == l && s1
                                                                    == decode_word(
                                                                    base_word + e3,
                                                                ) && !old(words).spec_get(
                                                                    lookup_word_id(
                                                                        *parent,
                                                                        e3,
                                                                    )->0 as nat,
                                                                );
                                                            lemma_same_text_same_word(
                                                                *parent,
                                                                base_word,
                                                                e3,
                                                                e,
                                                            );
                                                            assert(lookup_word_id(*parent, e3)
                                                                == Some(ide));
                                                            assert(words_pre.spec_get(
                                                                ide as nat,
                                                            ));
                                                        }
                                                    }
                                                }
                                            }
                                        }
                                    }
                                }
                                descend_radix(child, board, word, path, words, out);
                                proof {
                                    assert(path@ =~= base_path.push(pos));
                                }
                                path.pop();
                                proof {
                                    assert(path@ =~= base_path);
                                    // fold this cell's contributions into the invariant
                                    lemma_snoc_contains(done0, done, pos);
                                    lemma_lookup_cons_all(parent, l);
                                    let cw = *child;
                                    let bp = base_path.push(pos);
                                    let bw = base_word.push(l);
                                    assert forall|e2: Seq<u8>| #[trigger]
                                        decode_word(bw + e2) == decode_word(
                                        base_word + (seq![l] + e2),
                                    ) by {
                                        assert(bw + e2 =~= base_word + (seq![l] + e2));
                                    }
                                    // the tracker after this step
                                    assert forall|id: usize| #[trigger]
                                        words.spec_get(id as nat) <==> old(words).spec_get(
                                        id as nat,
                                    ) || (exists|e: Seq<u8>| #[trigger]
                                        reachable_word(
                                            *parent,
                                            wb,
                                            hb,
                                            g,
                                            base_path,
                                            base_word,
                                            e,
                                        ) && (e[0] as u32) < l as u32 && lookup_word_id(*parent, e)
                                            == Some(id)) || (exists|e: Seq<u8>, p: usize|
                                        done.contains(p) && #[trigger] reach_via(
                                            *parent,
                                            wb,
                                            hb,
                                            g,
                                            base_path,
                                            base_word,
                                            e,
                                            p,
                                        ) && e[0] == l && lookup_word_id(*parent, e) == Some(
                                            id,
                                        )) by {
                                        if words.spec_get(id as nat) {
                                            if !words_mid.spec_get(id as nat) {
                                                let e2 = choose|e2: Seq<u8>|
                                                    #[trigger] reachable_word(cw, wb, hb, g, bp, bw, e2)
                                                        && lookup_word_id(cw, e2) == Some(id);
                                                assert(reach_via(
                                                    *parent,
                                                    wb,
                                                    hb,
                                                    g,
                                                    base_path,
                                                    base_word,
                                                    seq![l] + e2,
                                                    pos,
                                                ));
                                                assert((seq![l] + e2)[0] == l);
                                                assert(lookup_word_id(*parent, seq![l] + e2)
                                                    == Some(id));
                                            } else if !words_pre.spec_get(id as nat) {
                                                // the single-letter word was recorded here
                                                assert(lookup_word_id(*parent, seq![l]) == Some(
                                                    id,
                                                ));
                                                assert(reach_via(
                                                    *parent,
                                                    wb,
                                                    hb,
                                                    g,
                                                    base_path,
                                                    base_word,
                                                    seq![l],
                                                    pos,
                                                ));
                                                assert(seq![l][0] == l);
                                            } else {
                                                // carried over: re-exhibit the witness with
                                                // the grown cell set
                                                if !old(words).spec_get(id as nat) && !(exists|
                                                    e: Seq<u8>,
                                                | #[trigger]
                                                    reachable_word(
                                                        *parent,
                                                        wb,
                                                        hb,
                                                        g,
                                                        base_path,
                                                        base_word,
                                                        e,
                                                    ) && (e[0] as u32) < l as u32
                                                        && lookup_word_id(*parent, e) == Some(
                                                        id,
                                                    )) {
                                                    let (e, p) = choose|e: Seq<u8>, p: usize|
                                                        done0.contains(p) && #[trigger] reach_via(
                                                            *parent,
                                                            wb,
                                                            hb,
                                                            g,
                                                            base_path,
                                                            base_word,
                                                            e,
                                                            p,
                                                        ) && e[0] == l && lookup_word_id(
                                                            *parent,
                                                            e,
                                                        ) == Some(id);
                                                    assert(done.contains(p));
                                                }
                                            }
                                        }
                                        if old(words).spec_get(id as nat) {
                                            assert(words_pre.spec_get(id as nat));
                                            assert(words_mid.spec_get(id as nat));
                                        }
                                        if exists|e: Seq<u8>| #[trigger]
                                            reachable_word(
                                                *parent,
                                                wb,
                                                hb,
                                                g,
                                                base_path,
                                                base_word,
                                                e,
                                            ) && (e[0] as u32) < l as u32 && lookup_word_id(
                                            *parent,
                                            e,
                                        ) == Some(id) {
                                            assert(words_pre.spec_get(id as nat));
                                            assert(words_mid.spec_get(id as nat));
                                        }
                                        if exists|e: Seq<u8>, p: usize|
                                            done.contains(p) && #[trigger] reach_via(
                                                *parent,
                                                wb,
                                                hb,
                                                g,
                                                base_path,
                                                base_word,
                                                e,
                                                p,
                                            ) && e[0] == l && lookup_word_id(*parent, e) == Some(
                                            id,
                                        ) {
                                            let (e, p) = choose|e: Seq<u8>, p: usize|
                                                done.contains(p) && #[trigger] reach_via(
                                                    *parent,
                                                    wb,
                                                    hb,
                                                    g,
                                                    base_path,
                                                    base_word,
                                                    e,
                                                    p,
                                                ) && e[0] == l && lookup_word_id(*parent, e)
                                                    == Some(id);
                                            if done0.contains(p) {
                                                assert(words_pre.spec_get(id as nat));
                                                assert(words_mid.spec_get(id as nat));
                                            } else {
                                                assert(p == pos);
                                                if e.len() == 1 {
                                                    assert(e =~= seq![l]);
                                                    assert(lookup_word_id(*parent, seq![l])
                                                        == Some(id));
                                                    assert(words_mid.spec_get(id as nat));
                                                } else {
                                                    lemma_head_tail(e, l);
                                                    let e2 = e.drop_first();
                                                    assert(reach_via(
                                                        *parent,
                                                        wb,
                                                        hb,
                                                        g,
                                                        base_path,
                                                        base_word,
                                                        seq![l] + e2,
                                                        pos,
                                                    ));
                                                    assert(e2.len() >= 1);
                                                    assert(reachable_word(
                                                        cw,
                                                        wb,
                                                        hb,
                                                        g,
                                                        bp,
                                                        bw,
                                                        e2,
                                                    ));
                                                    assert(lookup_word_id(cw, e2) == Some(id));
                                                    assert(words.spec_get(id as nat));
                                                }
                                            }
                                        }
                                    }
                                    // the output after this step
                                    assert forall|s: Seq<char>| #[trigger]
                                        strings_contain(out@, s) <==> strings_contain(
                                        old(out)@,
                                        s,
                                    ) || (exists|e: Seq<u8>| #[trigger]
                                        reachable_word(
                                            *parent,
                                            wb,
                                            hb,
                                            g,
                                            base_path,
                                            base_word,
                                            e,
                                        ) && (e[0] as u32) < l as u32 && s == decode_word(
                                            base_word + e,
                                        ) && !old(words).spec_get(
                                            lookup_word_id(*parent, e)->0 as nat,
                                        )) || (exists|e: Seq<u8>, p: usize|
                                        done.contains(p) && #[trigger] reach_via(
                                            *parent,
                                            wb,
                                            hb,
                                            g,
                                            base_path,
                                            base_word,
                                            e,
                                            p,
                                        ) && e[0] == l && s == decode_word(base_word + e) && !old(
                                            words,
                                        ).spec_get(lookup_word_id(*parent, e)->0 as nat)) by {
                                        if strings_contain(out@, s) {
                                            if !strings_contain(out_mid, s) {
                                                let e2 = choose|e2: Seq<u8>|
                                                    #[trigger] reachable_word(cw, wb, hb, g, bp, bw, e2)
                                                        && s == decode_word(bw + e2)
                                                        && !words_mid.spec_get(
                                                        lookup_word_id(cw, e2)->0 as nat,
                                                    );
                                                let e = seq![l] + e2;
                                                assert(reach_via(
                                                    *parent,
                                                    wb,
                                                    hb,
                                                    g,
                                                    base_path,
                                                    base_word,
                                                    e,
                                                    pos,
                                                ));
                                                assert(e[0] == l);
                                                assert(s == decode_word(base_word + e));
                                                assert(!old(words).spec_get(
                                                    lookup_word_id(*parent, e)->0 as nat,
                                                ));
                                            } else if !strings_contain(out_pre, s) {
                                                assert(lookup_word_id(*parent, seq![l])
                                                    is Some);
                                                let id0 = lookup_word_id(*parent, seq![l])->0;
                                                assert(s == decode_word(base_word + seq![l]));
                                                assert(!words_pre.spec_get(id0 as nat));
                                                assert(!old(words).spec_get(id0 as nat));
                                                assert(reach_via(
                                                    *parent,
                                                    wb,
                                                    hb,
                                                    g,
                                                    base_path,
                                                    base_word,
                                                    seq![l],
                                                    pos,
                                                ));
                                                assert(seq![l][0] == l);
                                            } else {
                                                // carried over: re-exhibit the witness with
                                                // the grown cell set
                                                if !strings_contain(old(out)@, s) && !(exists|
                                                    e: Seq<u8>,
                                                | #[trigger]
                                                    reachable_word(
                                                        *parent,
                                                        wb,
                                                        hb,
                                                        g,
                                                        base_path,
                                                        base_word,
                                                        e,
                                                    ) && (e[0] as u32) < l as u32 && s
                                                        == decode_word(base_word + e) && !old(
                                                        words,
                                                    ).spec_get(
                                                        lookup_word_id(*parent, e)->0 as nat,
                                                    )) {
                                                    let (e, p) = choose|e: Seq<u8>, p: usize|
                                                        done0.contains(p) && #[trigger] reach_via(
                                                            *parent,
                                                            wb,
                                                            hb,
                                                            g,
                                                            base_path,
                                                            base_word,
                                                            e,
                                                            p,
                                                        ) && e[0] == l && s == decode_word(
                                                            base_word + e,
                                                        ) && !old(words).spec_get(
                                                            lookup_word_id(*parent, e)->0 as nat,
                                                        );
                                                    assert(done.contains(p));
                                                }
                                            }
                                        }
                                        if strings_contain(old(out)@, s) {
                                            assert(strings_contain(out_pre, s));
                                            assert(strings_contain(out_mid, s));
                                            assert(strings_contain(out@, s));
                                        }
                                        if exists|e: Seq<u8>| #[trigger]
                                            reachable_word(
                                                *parent,
                                                wb,
                                                hb,
                                                g,
                                                base_path,
                                                base_word,
                                                e,
                                            ) && (e[0] as u32) < l as u32 && s == decode_word(
                                            base_word + e,
                                        ) && !old(words).spec_get(
                                            lookup_word_id(*parent, e)->0 as nat,
                                        ) {
                                            assert(strings_contain(out_pre, s));
                                            assert(strings_contain(out_mid, s));
                                            assert(strings_contain(out@, s));
                                        }
                                        if exists|e: Seq<u8>, p: usize|
                                            done.contains(p) && #[trigger] reach_via(
                                                *parent,
                                                wb,
                                                hb,
                                                g,
                                                base_path,
                                                base_word,
                                                e,
                                                p,
                                            ) && e[0] == l && s == decode_word(base_word + e)
                                            && !old(words).spec_get(
                                            lookup_word_id(*parent, e)->0 as nat,
                                        ) {
                                            let (e, p) = choose|e: Seq<u8>, p: usize|
                                                done.contains(p) && #[trigger] reach_via(
                                                    *parent,
                                                    wb,
                                                    hb,
                                                    g,
                                                    base_path,
                                                    base_word,
                                                    e,
                                                    p,
                                                ) && e[0] == l && s == decode_word(base_word + e)
                                                    && !old(words).spec_get(
                                                    lookup_word_id(*parent, e)->0 as nat,
                                                );
                                            let ide = lookup_word_id(*parent, e)->0;
                                            if done0.contains(p) {
                                                assert(strings_contain(out_pre, s));
                                                assert(strings_contain(out_mid, s));
                                                assert(strings_contain(out@, s));
                                            } else {
                                                assert(p == pos);
                                                if e.len() == 1 {
                                                    assert(e =~= seq![l]);
                                                    let id0 = lookup_word_id(
                                                        *parent,
                                                        seq![l],
                                                    )->0;
                                                    assert(id0 == ide);
                                                    if !words_pre.spec_get(id0 as nat) {
                                                        assert(strings_contain(out_mid, s));
                                                        assert(strings_contain(out@, s));
                                                    } else {
                                                        // already recorded: its text was
                                                        // already emitted for this very word
                                                        assert(!old(words).spec_get(
                                                            id0 as nat,
                                                        ));
                                                        let ep = choose|
                                                            ep: Seq<u8>,
                                                            pp: usize,
                                                        |
                                                            done0.contains(pp) && #[trigger] reach_via(
                                                                *parent,
                                                                wb,
                                                                hb,
                                                                g,
                                                                base_path,
                                                                base_word,
                                                                ep,
                                                                pp,
                                                            ) && ep[0] == l && lookup_word_id(
                                                                *parent,
                                                                ep,
                                                            ) == Some(id0);
                                                        assert(ep.0 == seq![l]) by {
                                                            if ep.0 != seq![l] {
                                                                assert(lookup_word_id(
                                                                    *parent,
                                                                    ep.0,
                                                                ) != lookup_word_id(
                                                                    *parent,
                                                                    seq![l],
                                                                ));
                                                            }
                                                        }
                                                        assert(strings_contain(out_pre, s));
                                                        assert(strings_contain(out@, s));
                                                    }
                                                } else {
                                                    lemma_head_tail(e, l);
                                                    let e2 = e.drop_first();
                                                    assert(e2.len() >= 1);
                                                    assert(reachable_word(
                                                        cw,
                                                        wb,
                                                        hb,
                                                        g,
                                                        bp,
                                                        bw,
                                                        e2,
                                                    ));
                                                    assert(lookup_word_id(cw, e2) == Some(ide));
                                                    if !words_mid.spec_get(ide as nat) {
                                                        assert(s == decode_word(bw + e2));
                                                        assert(strings_contain(out@, s));
                                                    } else if !words_pre.spec_get(ide as nat) {
                                                        // recorded by the one-letter emission:
                                                        // then it names the same word, which
                                                        // has more than one letter
                                                        assert(lookup_word_id(
                                                            *parent,
                                                            seq![l],
                                                        ) == Some(ide));
                                                        assert(seq![l] != e);
                                                        assert(lookup_word_id(*parent, seq![l])
                                                            != lookup_word_id(*parent, e));
                                                        assert(false);
                                                    } else {
                                                        // tracked before this cell: the same
                                                        // word was handled through an earlier
                                                        // cell, and its text emitted then
                                                        assert(!old(words).spec_get(
                                                            ide as nat,
                                                        ));
                                                        let ep = choose|
                                                            ep: Seq<u8>,
                                                            pp: usize,
                                                        |
                                                            done0.contains(pp) && #[trigger] reach_via(
                                                                *parent,
                                                                wb,
                                                                hb,
                                                                g,
                                                                base_path,
                                                                base_word,
                                                                ep,
                                                                pp,
                                                            ) && ep[0] == l && lookup_word_id(
                                                                *parent,
                                                                ep,
                                                            ) == Some(ide);
                                                        assert(ep.0 == e) by {
                                                            if ep.0 != e {
                                                                assert(lookup_word_id(
                                                                    *parent,
                                                                    ep.0,
                                                                ) != lookup_word_id(*parent, e));
                                                            }
                                                        }
                                                        assert(strings_contain(out_pre, s));
                                                        assert(strings_contain(out@, s));
                                                    }
                                                }
                                            }
                                        }
                                    }
                                }
                            } else {
                                proof {
                                    lemma_blocked_cell(
                                        *parent,
                                        wb,
                                        hb,
                                        g,
                                        base_path,
                                        base_word,
                                        pos,
                                    );
                                    lemma_done_grow(
                                        parent,
                                        wb,
                                        hb,
                                        g,
                                        base_path,
                                        base_word,
                                        l,
                                        done0,
                                        done,
                                        pos,
                                    );
                                    assert forall|id: usize| #[trigger]
                                        words.spec_get(id as nat) <==> old(words).spec_get(
                                        id as nat,
                                    ) || (exists|e: Seq<u8>| #[trigger]
                                        reachable_word(
                                            *parent,
                                            wb,
                                            hb,
                                            g,
                                            base_path,
                                            base_word,
                                            e,
                                        ) && (e[0] as u32) < l as u32 && lookup_word_id(*parent, e)
                                            == Some(id)) || (exists|e: Seq<u8>, p: usize|
                                        done.contains(p) && #[trigger] reach_via(
                                            *parent,
                                            wb,
                                            hb,
                                            g,
                                            base_path,
                                            base_word,
                                            e,
                                            p,
                                        ) && e[0] == l && lookup_word_id(*parent, e) == Some(
                                            id,
                                        )) by {}
                                    assert forall|s: Seq<char>| #[trigger]
                                        strings_contain(out@, s) <==> strings_contain(
                                        old(out)@,
                                        s,
                                    ) || (exists|e: Seq<u8>| #[trigger]
                                        reachable_word(
                                            *parent,
                                            wb,
                                            hb,
                                            g,
                                            base_path,
                                            base_word,
                                            e,
                                        ) && (e[0] as u32) < l as u32 && s == decode_word(
                                            base_word + e,
                                        ) && !old(words).spec_get(
                                            lookup_word_id(*parent, e)->0 as nat,
                                        )) || (exists|e: Seq<u8>, p: usize|
                                        done.contains(p) && #[trigger] reach_via(
                                            *parent,
                                            wb,
                                            hb,
                                            g,
                                            base_path,
                                            base_word,
                                            e,
                                            p,
                                        ) && e[0] == l && s == decode_word(base_word + e) && !old(
                                            words,
                                        ).spec_get(lookup_word_id(*parent, e)->0 as nat)) by {}
                                }
                            }
                        },
                    }
                }
                proof {
                    // every subtree word starting with `l` reaches through some
                    // enumerated neighbor cell
                    crate::grid::lemma_letter_neighbors_exact(wb, hb, g, last as int, l);
                    assert forall|e: Seq<u8>| #[trigger]
                        reachable_word(*parent, wb, hb, g, base_path, base_word, e) && e[0]
                        == l implies exists|p: usize|
                        done.contains(p) && reach_via(
                            *parent,
                            wb,
                            hb,
                            g,
                            base_path,
                            base_word,
                            e,
                            p,
                        ) by {
                        let q = choose|q: Seq<usize>| path_ok(wb, hb, g, base_path + q, base_word + e);
                        assert(q.len() == e.len()) by {
                            assert((base_path + q).len() == (base_word + e).len());
                        }
                        lemma_path_junction(wb, hb, g, base_path, base_word, q, e);
                        let p = q[0];
                        assert(letter_neighbors(wb, hb, g, last as int, l).contains(p));
                        assert(reach_via(*parent, wb, hb, g, base_path, base_word, e, p));
                    }
                }
                word.pop();
                proof {
                    assert(word@ =~= base_word);
                    // assemble the outer invariant at the advanced cursor
                    assert forall|id: usize| #[trigger]
                        words.spec_get(id as nat) <==> old(words).spec_get(id as nat) || (exists|
                            e: Seq<u8>,
                        | #[trigger]
                            reachable_word(*parent, wb, hb, g, base_path, base_word, e) && (
                            e[0] as u32) < l as u32 + 1 && lookup_word_id(*parent, e) == Some(
                                id,
                            )) by {
                        if words.spec_get(id as nat) && !old(words).spec_get(id as nat) {
                            if exists|e: Seq<u8>, p: usize|
                                done.contains(p) && #[trigger] reach_via(
                                    *parent,
                                    wb,
                                    hb,
                                    g,
                                    base_path,
                                    base_word,
                                    e,
                                    p,
                                ) && e[0] == l && lookup_word_id(*parent, e) == Some(id) {
                                let (e, p) = choose|e: Seq<u8>, p: usize|
                                    done.contains(p) && #[trigger] reach_via(
                                        *parent,
                                        wb,
                                        hb,
                                        g,
                                        base_path,
                                        base_word,
                                        e,
                                        p,
                                    ) && e[0] == l && lookup_word_id(*parent, e) == Some(id);
                                assert(reachable_word(*parent, wb, hb, g, base_path, base_word, e));
                                assert((e[0] as u32) < l as u32 + 1);
                            }
                        }
                        if exists|e: Seq<u8>| #[trigger]
                            reachable_word(*parent, wb, hb, g, base_path, base_word, e) && (
                        e[0] as u32) < l as u32 + 1 && lookup_word_id(*parent, e) == Some(id) {
                            let e = choose|e: Seq<u8>|
                                #[trigger] reachable_word(*parent, wb, hb, g, base_path, base_word, e)
                                    && (e[0] as u32) < l as u32 + 1 && lookup_word_id(*parent, e)
                                    == Some(id);
                            if e[0] == l {
                                assert(words.spec_get(id as nat));
                            }
                        }
                    }
                    assert forall|s: Seq<char>| #[trigger]
                        strings_contain(out@, s) <==> strings_contain(old(out)@, s) || (exists|
                            e: Seq<u8>,
                        | #[trigger]
                            reachable_word(*parent, wb, hb, g, base_path, base_word, e) && (
                            e[0] as u32) < l as u32 + 1 && s == decode_word(base_word + e) && !old(
                                words,
                            ).spec_get(lookup_word_id(*parent, e)->0 as nat)) by {
                        if strings_contain(out@, s) && !strings_contain(old(out)@, s) {
                            if exists|e: Seq<u8>, p: usize|
                                done.contains(p) && #[trigger] reach_via(
                                    *parent,
                                    wb,
                                    hb,
                                    g,
                                    base_path,
                                    base_word,
                                    e,
                                    p,
                                ) && e[0] == l && s == decode_word(base_word + e) && !old(
                                words,
                            ).spec_get(lookup_word_id(*parent, e)->0 as nat) {
                                let (e, p) = choose|e: Seq<u8>, p: usize|
                                    done.contains(p) && #[trigger] reach_via(
                                        *parent,
                                        wb,
                                        hb,
                                        g,
                                        base_path,
                                        base_word,
                                        e,
                                        p,
                                    ) && e[0] == l && s == decode_word(base_word + e) && !old(
                                    words,
                                ).spec_get(lookup_word_id(*parent, e)->0 as nat);
                                assert(reachable_word(*parent, wb, hb, g, base_path, base_word, e));
                                assert((e[0] as u32) < l as u32 + 1);
                            }
                        }
                        if exists|e: Seq<u8>| #[trigger]
                            reachable_word(*parent, wb, hb, g, base_path, base_word, e) && (
                        e[0] as u32) < l as u32 + 1 && s == decode_word(base_word + e) && !old(
                            words,
                        ).spec_get(lookup_word_id(*parent, e)->0 as nat) {
                            let e = choose|e: Seq<u8>|
                                #[trigger] reachable_word(*parent, wb, hb, g, base_path, base_word, e)
                                    && (e[0] as u32) < l as u32 + 1 && s == decode_word(
                                    base_word + e,
                                ) && !old(words).spec_get(lookup_word_id(*parent, e)->0 as nat);
                            if e[0] == l {
                                let q = choose|q: Seq<usize>|
                                    path_ok(wb, hb, g, base_path + q, base_word + e);
                                assert(q.len() == e.len()) by {
                                    assert((base_path + q).len() == (base_word + e).len());
                                }
                                lemma_path_junction(wb, hb, g, base_path, base_word, q, e);
                                assert(letter_neighbors(wb, hb, g, last as int, l).contains(
                                    q[0],
                                ));
                                assert(reach_via(
                                    *parent,
                                    wb,
                                    hb,
                                    g,
                                    base_path,
                                    base_word,
                                    e,
                                    q[0],
                                ));
                                assert(strings_contain(out@, s));
                            }
                        }
                    }
                }
            },
        }
    }
}


/// Membership in a sequence extended by one element.
proof fn lemma_snoc_contains(done0: Seq<usize>, done: Seq<usize>, pos: usize)
    requires
        done == done0 + seq![pos],
    ensures
        done.contains(pos),
        forall|p: usize| #[trigger] done0.contains(p) ==> done.contains(p),
        forall|p: usize| #[trigger] done.contains(p) ==> done0.contains(p) || p == pos,
{
    assert(done[done0.len() as int] == pos);
    assert forall|p: usize| #[trigger] done0.contains(p) implies done.contains(p) by {
        let k = choose|k: int| 0 <= k < done0.len() && done0[k] == p;
        assert(done[k] == p);
    }
    assert forall|p: usize| #[trigger] done.contains(p) implies done0.contains(p) || p == pos by {
        let k = choose|k: int| 0 <= k < done.len() && done[k] == p;
        if k < done0.len() {
            assert(done0[k] == p);
        }
    }
}

/// Membership among the texts of an output extended by one string.
proof fn lemma_push_contains(out: Seq<String>, t: String)
    ensures
        forall|s: Seq<char>| #[trigger]
            strings_contain(out.push(t), s) <==> strings_contain(out, s) || s == t@,
{
    assert forall|s: Seq<char>| #[trigger]
        strings_contain(out.push(t), s) implies strings_contain(out, s) || s == t@ by {
        let k = choose|k: int| 0 <= k < out.push(t).len() && out.push(t)[k]@ == s;
        if k < out.len() {
            assert(out[k]@ == s);
        }
    }
    assert forall|s: Seq<char>| strings_contain(out, s) || s == t@ implies #[trigger]
        strings_contain(out.push(t), s) by {
        if strings_contain(out, s) {
            let k = choose|k: int| 0 <= k < out.len() && out[k]@ == s;
            assert(out.push(t)[k]@ == s);
        } else {
            assert(out.push(t)[out.len() as int]@ == s);
        }
    }
}

/// The cons-lookup relation, quantified over all extensions.
proof fn lemma_lookup_cons_all(t: &Trie, l: u8)
    requires
        t.children@.len() == 26,
        l < 26,
        t.children@[l as int] is Some,
    ensures
        forall|e2: Seq<u8>| #[trigger]
            lookup_word_id(*t, seq![l] + e2) == lookup_word_id(*t.children@[l as int]->0, e2),
{
    assert forall|e2: Seq<u8>| #[trigger]
        lookup_word_id(*t, seq![l] + e2) == lookup_word_id(
        *t.children@[l as int]->0,
        e2,
    ) by {
        lemma_lookup_cons(t, l, e2);
    }
}

/// A nonempty word starting with `l` is `l` followed by its tail.
proof fn lemma_head_tail(e: Seq<u8>, l: u8)
    requires
        e.len() >= 1,
        e[0] == l,
    ensures
        e == seq![l] + e.drop_first(),
{
    assert(e =~= seq![l] + e.drop_first());
}

/// Growing the set of handled first cells by a cell that starts nothing
/// keeps the handled-words characterization unchanged.
proof fn lemma_done_grow(
    t: &Trie,
    w: int,
    h: int,
    g: Seq<Option<u8>>,
    base_path: Seq<usize>,
    base_word: Seq<u8>,
    l: u8,
    done0: Seq<usize>,
    done: Seq<usize>,
    pos: usize,
)
    requires
        done == done0 + seq![pos],
        forall|e: Seq<u8>| !(#[trigger] reach_via(*t, w, h, g, base_path, base_word, e, pos)),
    ensures
        forall|e: Seq<u8>, p: usize|
            (done.contains(p) && #[trigger] reach_via(*t, w, h, g, base_path, base_word, e, p))
                <==> (done0.contains(p) && reach_via(*t, w, h, g, base_path, base_word, e, p)),
{
    assert forall|e: Seq<u8>, p: usize|
        (done.contains(p) && #[trigger] reach_via(*t, w, h, g, base_path, base_word, e, p)) implies (
    done0.contains(p) && reach_via(*t, w, h, g, base_path, base_word, e, p)) by {
        if p == pos {
            assert(!reach_via(*t, w, h, g, base_path, base_word, e, pos));
        } else {
            let k = choose|k: int| 0 <= k < done.len() && done[k] == p;
            assert(k < done0.len());
            assert(done0[k] == p);
        }
    }
    assert forall|e: Seq<u8>, p: usize|
        (done0.contains(p) && #[trigger] reach_via(*t, w, h, g, base_path, base_word, e, p)) implies (
    done.contains(p) && reach_via(*t, w, h, g, base_path, base_word, e, p)) by {
        let k = choose|k: int| 0 <= k < done0.len() && done0[k] == p;
        assert(done[k] == p);
    }
}


/// The eager search over the letter-indexed board: explores the whole
/// trie/board product and returns the texts of exactly the dictionary
/// words of two or more letters traceable as simple paths, each once.
#[verifier::rlimit(100)]
#[verifier::spinoff_prover]
pub fn solve_radix(root: &Trie, board: &RadixBoggleBoard) -> (out: Vec<String>)
    requires
        root.wf(),
        board.wf(),
        distinct_ids(*root),
    ensures
        no_dup_strings(out@),
        forall|s: Seq<char>| #[trigger]
            strings_contain(out@, s) <==> (exists|wd: Seq<u8>| #[trigger]
                is_found_word(
                    *root,
                    board.width as int,
                    board.height as int,
                    board.grid@,
                    wd,
                ) && s == decode_word(wd)),
{
    let ghost wb = board.width as int;
    let ghost hb = board.height as int;
    let ghost g = board.grid@;
    let ghost ep = Seq::<usize>::empty();
    let ghost ew = Seq::<u8>::empty();
    let mut word: Vec<u8> = Vec::new();
    let mut path: Vec<usize> = Vec::new();
    let mut words = BitSet::new();
    let mut out: Vec<String> = Vec::new();
    let mut it = root.iter();
    loop
        invariant_except_break
            it.wf(),
            it.trie == root,
            root.wf(),
            board.wf(),
            distinct_ids(*root),
            words.wf(),
            wb == board.width as int,
            hb == board.height as int,
            g == board.grid@,
            word@ == ew,
            path@ == ep,
            ep == Seq::<usize>::empty(),
            ew == Seq::<u8>::empty(),
            no_dup_strings(out@),
            forall|id: usize| #[trigger]
                words.spec_get(id as nat) <==> (exists|wd: Seq<u8>| #[trigger]
                    is_found_word(*root, wb, hb, g, wd) && (wd[0] as u32) < it.iter.i
                        && lookup_word_id(*root, wd) == Some(id)),
            forall|s: Seq<char>| #[trigger]
                strings_contain(out@, s) <==> (exists|wd: Seq<u8>| #[trigger]
                    is_found_word(*root, wb, hb, g, wd) && (wd[0] as u32) < it.iter.i && s
                        == decode_word(wd)),
        ensures
            no_dup_strings(out@),
            forall|s: Seq<char>| #[trigger]
                strings_contain(out@, s) <==> (exists|wd: Seq<u8>| #[trigger]
                    is_found_word(*root, wb, hb, g, wd) && s == decode_word(wd)),
        decreases 33 - it.iter.i,
    {
        let ghost cur = it.iter.i;
        match it.next() {
            None => {
                proof {
                    assert forall|s: Seq<char>| #[trigger]
                        strings_contain(out@, s) <==> (exists|wd: Seq<u8>| #[trigger]
                            is_found_word(*root, wb, hb, g, wd) && s == decode_word(wd)) by {
                        if exists|wd: Seq<u8>| #[trigger]
                            is_found_word(*root, wb, hb, g, wd) && s == decode_word(wd) {
                            let wd = choose|wd: Seq<u8>|
                                #[trigger] is_found_word(*root, wb, hb, g, wd) && s == decode_word(
                                    wd,
                                );
                            if (wd[0] as u32) >= cur {
                                if wd[0] < 26 {
                                    assert(!root.child_set.spec_get(wd[0] as u32));
                                    assert(root.children@[wd[0] as int] is None);
                                }
                                lemma_no_child_no_word(root, wd);
                            }
                        }
                    }
                }
                break ;
            },
            Some((child, l)) => {
                proof {
                    assert forall|wd: Seq<u8>| #[trigger]
                        is_found_word(*root, wb, hb, g, wd) && (wd[0] as u32)
                        < l as u32 implies (wd[0] as u32) < cur by {
                        if (wd[0] as u32) >= cur {
                            assert(!root.child_set.spec_get(wd[0] as u32));
                            assert(root.children@[wd[0] as int] is None);
                            lemma_no_child_no_word(root, wd);
                        }
                    }
                }
                word.push(l);
                let mut cells = board.any(l);
                loop
                    invariant_except_break
                        cells.wf(),
                        *cells.bitset == board.alpha@[l as int],
                        root.wf(),
                        board.wf(),
                        distinct_ids(*root),
                        words.wf(),
                        wb == board.width as int,
                        hb == board.height as int,
                        g == board.grid@,
                        word@ == seq![l],
                        path@ == ep,
                        ep == Seq::<usize>::empty(),
                        ew == Seq::<u8>::empty(),
                        l < 26,
                        root.children@[l as int] is Some,
                        *child == *root.children@[l as int]->0,
                        child.wf(),
                        no_dup_strings(out@),
                        forall|id: usize| #[trigger]
                            words.spec_get(id as nat) <==> (exists|wd: Seq<u8>| #[trigger]
                                is_found_word(*root, wb, hb, g, wd) && (wd[0] as u32) < l as u32
                                    && lookup_word_id(*root, wd) == Some(id)) || (exists|
                                e: Seq<u8>,
                                p: usize,
                            |
                                (p as int) < cells.pos() && #[trigger] reach_via(
                                    *root,
                                    wb,
                                    hb,
                                    g,
                                    ep,
                                    ew,
                                    e,
                                    p,
                                ) && e[0] == l && e.len() >= 2 && lookup_word_id(*root, e)
                                    == Some(id)),
                        forall|s: Seq<char>| #[trigger]
                            strings_contain(out@, s) <==> (exists|wd: Seq<u8>| #[trigger]
                                is_found_word(*root, wb, hb, g, wd) && (wd[0] as u32) < l as u32
                                    && s == decode_word(wd)) || (exists|e: Seq<u8>, p: usize|
                                (p as int) < cells.pos() && #[trigger] reach_via(
                                    *root,
                                    wb,
                                    hb,
                                    g,
                                    ep,
                                    ew,
                                    e,
                                    p,
                                ) && e[0] == l && e.len() >= 2 && s == decode_word(e)),
                    ensures
                        word@ == seq![l],
                        path@ == ep,
                        words.wf(),
                        no_dup_strings(out@),
                        forall|id: usize| #[trigger]
                            words.spec_get(id as nat) <==> (exists|wd: Seq<u8>| #[trigger]
                                is_found_word(*root, wb, hb, g, wd) && (wd[0] as u32) < l as u32
                                    + 1 && lookup_word_id(*root, wd) == Some(id)),
                        forall|s: Seq<char>| #[trigger]
                            strings_contain(out@, s) <==> (exists|wd: Seq<u8>| #[trigger]
                                is_found_word(*root, wb, hb, g, wd) && (wd[0] as u32) < l as u32
                                    + 1 && s == decode_word(wd)),
                    decreases 64 * board.alpha@[l as int].data@.len() + 1 - cells.pos(),
                {
                    let ghost cpos = cells.pos();
                    match cells.next() {
                        None => {
                            proof {
                                // every cell starting a word with this first letter
                                // holds the letter, so it lies below the cursor
                                assert forall|id: usize| #[trigger]
                                    words.spec_get(id as nat) <==> (exists|wd: Seq<u8>|
                                        #[trigger] is_found_word(*root, wb, hb, g, wd) && (
                                        wd[0] as u32) < l as u32 + 1 && lookup_word_id(*root, wd)
                                            == Some(id)) by {
                                    if exists|wd: Seq<u8>| #[trigger]
                                        is_found_word(*root, wb, hb, g, wd) && (wd[0] as u32)
                                        < l as u32 + 1 && lookup_word_id(*root, wd) == Some(id) {
                                        let wd = choose|wd: Seq<u8>|
                                            #[trigger] is_found_word(*root, wb, hb, g, wd) && (
                                            wd[0] as u32) < l as u32 + 1 && lookup_word_id(
                                                *root,
                                                wd,
                                            ) == Some(id);
                                        if wd[0] == l {
                                            let q = choose|q: Seq<usize>| path_ok(wb, hb, g, q, wd);
                                            assert(q.len() == wd.len());
                                            assert(g[q[0] as int] == Some(l));
                                            assert(board.alpha@[l as int].spec_get(q[0] as nat));
                                            assert((q[0] as int) < cpos);
                                            assert(ep + q =~= q && ew + wd =~= wd);
                                            assert(reach_via(*root, wb, hb, g, ep, ew, wd, q[0]));
                                            assert(words.spec_get(id as nat));
                                        }
                                    }
                                    if words.spec_get(id as nat) {
                                        if exists|e: Seq<u8>, p: usize|
                                            (p as int) < cpos && #[trigger] reach_via(
                                                *root,
                                                wb,
                                                hb,
                                                g,
                                                ep,
                                                ew,
                                                e,
                                                p,
                                            ) && e[0] == l && e.len() >= 2 && lookup_word_id(
                                            *root,
                                            e,
                                        ) == Some(id) {
                                            let (e, p) = choose|e: Seq<u8>, p: usize|
                                                (p as int) < cpos && #[trigger] reach_via(
                                                    *root,
                                                    wb,
                                                    hb,
                                                    g,
                                                    ep,
                                                    ew,
                                                    e,
                                                    p,
                                                ) && e[0] == l && e.len() >= 2 && lookup_word_id(
                                                    *root,
                                                    e,
                                                ) == Some(id);
                                            let q = choose|q: Seq<usize>|
                                                q.len() >= 1 && q[0] == p && path_ok(
                                                    wb,
                                                    hb,
                                                    g,
                                                    ep + q,
                                                    ew + e,
                                                );
                                            assert(ep + q =~= q && ew + e =~= e);
                                            assert(is_found_word(*root, wb, hb, g, e));
                                        }
                                    }
                                }
                                assert forall|s: Seq<char>| #[trigger]
                                    strings_contain(out@, s) <==> (exists|wd: Seq<u8>|
                                        #[trigger] is_found_word(*root, wb, hb, g, wd) && (
                                        wd[0] as u32) < l as u32 + 1 && s == decode_word(
                                            wd,
                                        )) by {
                                    if exists|wd: Seq<u8>| #[trigger]
                                        is_found_word(*root, wb, hb, g, wd) && (wd[0] as u32)
                                        < l as u32 + 1 && s == decode_word(wd) {
                                        let wd = choose|wd: Seq<u8>|
                                            #[trigger] is_found_word(*root, wb, hb, g, wd) && (
                                            wd[0] as u32) < l as u32 + 1 && s == decode_word(wd);
                                        if wd[0] == l {
                                            let q = choose|q: Seq<usize>| path_ok(wb, hb, g, q, wd);
                                            assert(q.len() == wd.len());
                                            assert(g[q[0] as int] == Some(l));
                                            assert(board.alpha@[l as int].spec_get(q[0] as nat));
                                            assert((q[0] as int) < cpos);
                                            assert(ep + q =~= q && ew + wd =~= wd);
                                            assert(reach_via(*root, wb, hb, g, ep, ew, wd, q[0]));
                                            assert(strings_contain(out@, s));
                                        }
                                    }
                                    if strings_contain(out@, s) {
                                        if exists|e: Seq<u8>, p: usize|
                                            (p as int) < cpos && #[trigger] reach_via(
                                                *root,
                                                wb,
                                                hb,
                                                g,
                                                ep,
                                                ew,
                                                e,
                                                p,
                                            ) && e[0] == l && e.len() >= 2 && s == decode_word(
                                            e,
                                        ) {
                                            let (e, p) = choose|e: Seq<u8>, p: usize|
                                                (p as int) < cpos && #[trigger] reach_via(
                                                    *root,
                                                    wb,
                                                    hb,
                                                    g,
                                                    ep,
                                                    ew,
                                                    e,
                                                    p,
                                                ) && e[0] == l && e.len() >= 2 && s
                                                    == decode_word(e);
                                            let q = choose|q: Seq<usize>|
                                                q.len() >= 1 && q[0] == p && path_ok(
                                                    wb,
                                                    hb,
                                                    g,
                                                    ep + q,
                                                    ew + e,
                                                );
                                            assert(ep + q =~= q && ew + e =~= e);
                                            assert(is_found_word(*root, wb, hb, g, e));
                                        }
                                    }
                                }
                            }
                            break ;
                        },
                        Some(pos) => {
                            proof {
                                assert(board.alpha@[l as int].spec_get(pos as nat));
                                assert(pos < board.width * board.height && g[pos as int] == Some(
                                    l,
                                ));
                                assert(path_ok(wb, hb, g, seq![pos], seq![l])) by {
                                    assert(seq![pos][0] == pos && seq![l][0] == l);
                                }
                                assert(ep.push(pos) =~= seq![pos]);
                                assert(ew.push(l) =~= seq![l]);
                                lemma_simple_path_bound(wb, hb, g, seq![pos], seq![l]);
                                lemma_distinct_ids_child(root, l, *child);
                                lemma_reach_cons(root, *child, wb, hb, g, ep, ew, l, pos);
                                lemma_lookup_cons_all(root, l);
                            }
                            path.push(pos);
                            let ghost words_pre = words;
                            let ghost out_pre = out@;
                            proof {
                                assert(path@ =~= seq![pos]);
                                // the call may not re-emit: its fresh words are
                                // not yet in the output
                                let cw0 = *child;
                                let bp0 = ep.push(pos);
                                let bw0 = ew.push(l);
                                assert(fresh_untracked_unemitted(
                                    cw0,
                                    wb,
                                    hb,
                                    g,
                                    bp0,
                                    bw0,
                                    words,
                                    out@,
                                )) by {
                                    assert forall|e2: Seq<u8>| #[trigger]
                                        reachable_word(cw0, wb, hb, g, bp0, bw0, e2)
                                            && !words.spec_get(
                                            lookup_word_id(cw0, e2)->0 as nat,
                                        ) implies !strings_contain(
                                        out@,
                                        decode_word(bw0 + e2),
                                    ) by {
                                        let e = seq![l] + e2;
                                        assert(reach_via(*root, wb, hb, g, ep, ew, e, pos));
                                        lemma_reach_via_weaken(*root, wb, hb, g, ep, ew, e, pos);
                                        assert(lookup_word_id(*root, e) == lookup_word_id(
                                            cw0,
                                            e2,
                                        ));
                                        let ide = lookup_word_id(*root, e)->0;
                                        let s1 = decode_word(e);
                                        assert(decode_word(bw0 + e2) == s1) by {
                                            assert(bw0 + e2 =~= e);
                                        }
                                        if strings_contain(out@, s1) {
                                            if exists|wd: Seq<u8>| #[trigger]
                                                is_found_word(*root, wb, hb, g, wd) && (
                                                wd[0] as u32) < l as u32 && s1 == decode_word(
                                                    wd,
                                                ) {
                                                let wd = choose|wd: Seq<u8>|
                                                    #[trigger] is_found_word(*root, wb, hb, g, wd)
                                                        && (wd[0] as u32) < l as u32 && s1
                                                        == decode_word(wd);
                                                assert(decode_word(ew + wd) == decode_word(
                                                    ew + e,
                                                )) by {
                                                    assert(ew + wd =~= wd);
                                                    assert(ew + e =~= e);
                                                }
                                                lemma_same_text_same_word(*root, ew, wd, e);
                                                assert(wd[0] == l);
                                            } else {
                                                let (e3, p3) = choose|e3: Seq<u8>, p3: usize|
                                                    (p3 as int) < cpos && #[trigger] reach_via(
                                                        *root,
                                                        wb,
                                                        hb,
                                                        g,
                                                        ep,
                                                        ew,
                                                        e3,
                                                        p3,
                                                    ) && e3[0] == l && e3.len() >= 2 && s1
                                                        == decode_word(e3);
                                                assert(decode_word(ew + e3) == decode_word(
                                                    ew + e,
                                                )) by {
                                                    assert(ew + e3 =~= e3);
                                                    assert(ew + e =~= e);
                                                }
                                                lemma_same_text_same_word(*root, ew, e3, e);
                                                assert(lookup_word_id(*root, e3) == Some(ide));
                                                assert(words.spec_get(ide as nat));
                                            }
                                        }
                                    }
                                }
                            }
                            descend_radix(child, board, &mut word, &mut path, &mut words, &mut out);
                            path.pop();
                            proof {
                                assert(path@ =~= ep);
                                let cw = *child;
                                let bp = ep.push(pos);
                                let bw = ew.push(l);
                                assert forall|e2: Seq<u8>| #[trigger]
                                    decode_word(bw + e2) == decode_word(seq![l] + e2) by {
                                    assert(bw + e2 =~= seq![l] + e2);
                                }
                                assert forall|e2: Seq<u8>| #[trigger]
                                    decode_word(ew + (seq![l] + e2)) == decode_word(
                                    seq![l] + e2,
                                ) by {
                                    assert(ew + (seq![l] + e2) =~= seq![l] + e2);
                                }
                                // the tracker after this seed cell
                                assert forall|id: usize| #[trigger]
                                    words.spec_get(id as nat) <==> (exists|wd: Seq<u8>|
                                        #[trigger] is_found_word(*root, wb, hb, g, wd) && (
                                        wd[0] as u32) < l as u32 && lookup_word_id(*root, wd)
                                            == Some(id)) || (exists|e: Seq<u8>, p: usize|
                                        (p as int) < cells.pos() && #[trigger] reach_via(
                                            *root,
                                            wb,
                                            hb,
                                            g,
                                            ep,
                                            ew,
                                            e,
                                            p,
                                        ) && e[0] == l && e.len() >= 2 && lookup_word_id(
                                            *root,
                                            e,
                                        ) == Some(id)) by {
                                    if words.spec_get(id as nat) && !words_pre.spec_get(
                                        id as nat,
                                    ) {
                                        let e2 = choose|e2: Seq<u8>|
                                            #[trigger] reachable_word(cw, wb, hb, g, bp, bw, e2)
                                                && lookup_word_id(cw, e2) == Some(id);
                                        let e = seq![l] + e2;
                                        assert(reach_via(*root, wb, hb, g, ep, ew, e, pos));
                                        assert(e[0] == l && e.len() >= 2);
                                        assert(lookup_word_id(*root, e) == Some(id));
                                        assert((pos as int) < cells.pos());
                                    }
                                    if exists|e: Seq<u8>, p: usize|
                                        (p as int) < cells.pos() && #[trigger] reach_via(
                                            *root,
                                            wb,
                                            hb,
                                            g,
                                            ep,
                                            ew,
                                            e,
                                            p,
                                        ) && e[0] == l && e.len() >= 2 && lookup_word_id(
                                        *root,
                                        e,
                                    ) == Some(id) {
                                        let (e, p) = choose|e: Seq<u8>, p: usize|
                                            (p as int) < cells.pos() && #[trigger] reach_via(
                                                *root,
                                                wb,
                                                hb,
                                                g,
                                                ep,
                                                ew,
                                                e,
                                                p,
                                            ) && e[0] == l && e.len() >= 2 && lookup_word_id(
                                                *root,
                                                e,
                                            ) == Some(id);
                                        if (p as int) < cpos {
                                            assert(words_pre.spec_get(id as nat));
                                        } else {
                                            // no cell between the old cursor and the yielded
                                            // one holds the letter
                                            let q = choose|q: Seq<usize>|
                                                q.len() >= 1 && q[0] == p && path_ok(
                                                    wb,
                                                    hb,
                                                    g,
                                                    ep + q,
                                                    ew + e,
                                                );
                                            assert(ep + q =~= q && ew + e =~= e);
                                            assert(g[p as int] == Some(l)) by {
                                                assert(q[0] == p && e[0] == l);
                                            }
                                            assert(board.alpha@[l as int].spec_get(p as nat));
                                            assert(p == pos);
                                            lemma_head_tail(e, l);
                                            let e2 = e.drop_first();
                                            assert(reachable_word(cw, wb, hb, g, bp, bw, e2));
                                            assert(lookup_word_id(cw, e2) == Some(id));
                                            assert(words.spec_get(id as nat));
                                        }
                                    }
                                }
                                // the output after this seed cell
                                assert forall|s: Seq<char>| #[trigger]
                                    strings_contain(out@, s) <==> (exists|wd: Seq<u8>|
                                        #[trigger] is_found_word(*root, wb, hb, g, wd) && (
                                        wd[0] as u32) < l as u32 && s == decode_word(wd)) || (
                                    exists|e: Seq<u8>, p: usize|
                                        (p as int) < cells.pos() && #[trigger] reach_via(
                                            *root,
                                            wb,
                                            hb,
                                            g,
                                            ep,
                                            ew,
                                            e,
                                            p,
                                        ) && e[0] == l && e.len() >= 2 && s == decode_word(
                                            e,
                                        )) by {
                                    if strings_contain(out@, s) && !strings_contain(out_pre, s) {
                                        let e2 = choose|e2: Seq<u8>|
                                            #[trigger] reachable_word(cw, wb, hb, g, bp, bw, e2)
                                                && s == decode_word(bw + e2)
                                                && !words_pre.spec_get(
                                                lookup_word_id(cw, e2)->0 as nat,
                                            );
                                        let e = seq![l] + e2;
                                        assert(reach_via(*root, wb, hb, g, ep, ew, e, pos));
                                        assert(e[0] == l && e.len() >= 2);
                                        assert(s == decode_word(e));
                                        assert((pos as int) < cells.pos());
                                    }
                                    if exists|e: Seq<u8>, p: usize|
                                        (p as int) < cells.pos() && #[trigger] reach_via(
                                            *root,
                                            wb,
                                            hb,
                                            g,
                                            ep,
                                            ew,
                                            e,
                                            p,
                                        ) && e[0] == l && e.len() >= 2 && s == decode_word(e) {
                                        let (e, p) = choose|e: Seq<u8>, p: usize|
                                            (p as int) < cells.pos() && #[trigger] reach_via(
                                                *root,
                                                wb,
                                                hb,
                                                g,
                                                ep,
                                                ew,
                                                e,
                                                p,
                                            ) && e[0] == l && e.len() >= 2 && s == decode_word(e);
                                        if (p as int) < cpos {
                                            assert(strings_contain(out_pre, s));
                                            assert(strings_contain(out@, s));
                                        } else {
                                            // no cell between the old cursor and the yielded
                                            // one holds the letter
                                            let q = choose|q: Seq<usize>|
                                                q.len() >= 1 && q[0] == p && path_ok(
                                                    wb,
                                                    hb,
                                                    g,
                                                    ep + q,
                                                    ew + e,
                                                );
                                            assert(ep + q =~= q && ew + e =~= e);
                                            assert(g[p as int] == Some(l)) by {
                                                assert(q[0] == p && e[0] == l);
                                            }
                                            assert(board.alpha@[l as int].spec_get(p as nat));
                                            assert(p == pos);
                                            lemma_head_tail(e, l);
                                            let e2 = e.drop_first();
                                            assert(reachable_word(cw, wb, hb, g, bp, bw, e2));
                                            let ide = lookup_word_id(*root, e)->0;
                                            assert(lookup_word_id(cw, e2) == Some(ide));
                                            if !words_pre.spec_get(ide as nat) {
                                                assert(s == decode_word(bw + e2));
                                                assert(strings_contain(out@, s));
                                            } else {
                                                // the id was already tracked: the same word
                                                // was reached through an earlier seed cell,
                                                // and its text is already in the output
                                                let (e3, p3) = choose|e3: Seq<u8>, p3: usize|
                                                    (p3 as int) < cpos && #[trigger] reach_via(
                                                        *root,
                                                        wb,
                                                        hb,
                                                        g,
                                                        ep,
                                                        ew,
                                                        e3,
                                                        p3,
                                                    ) && e3[0] == l && e3.len() >= 2
                                                        && lookup_word_id(*root, e3) == Some(ide);
                                                assert(e3 == e) by {
                                                    if e3 != e {
                                                        assert(lookup_word_id(*root, e3)
                                                            != lookup_word_id(*root, e));
                                                    }
                                                }
                                                assert(strings_contain(out_pre, s));
                                                assert(strings_contain(out@, s));
                                            }
                                        }
                                    }
                                }
                            }
                        },
                    }
                }
                word.pop();
                proof {
                    assert(word@ =~= ew);
                }
            },
        }
    }
    out
}


/// One step of the eager walk over the plain board: explores every
/// extension of the current path through `parent`'s subtree.  On return the word and path buffers
/// are as they were; the tracker holds exactly the old ids plus the id of
/// every word of the subtree reachable from here; and the output gained
/// exactly the text of each such word whose id was not yet tracked.
#[verifier::rlimit(100)]
#[verifier::spinoff_prover]
pub fn descend(
    parent: &Trie,
    board: &SimpleBoggleBoard,
    word: &mut Vec<u8>,
    path: &mut Vec<usize>,
    words: &mut BitSet,
    out: &mut Vec<String>,
)
    requires
        parent.wf(),
        board.wf(),
        distinct_ids(*parent),
        old(words).wf(),
        old(word)@.len() == old(path)@.len(),
        old(word)@.len() >= 1,
        forall|k: int| 0 <= k < old(word)@.len() ==> #[trigger] old(word)@[k] < 26,
        path_ok(
            board.width as int,
            board.height as int,
            board.grid(),
            old(path)@,
            old(word)@,
        ),
    ensures
        final(word)@ == old(word)@,
        final(path)@ == old(path)@,
        final(words).wf(),
        forall|id: usize| #[trigger]
            final(words).spec_get(id as nat) <==> old(words).spec_get(id as nat) || (exists|
                e: Seq<u8>,
            | #[trigger]
                reachable_word(
                    *parent,
                    board.width as int,
                    board.height as int,
                    board.grid(),
                    old(path)@,
                    old(word)@,
                    e,
                ) && lookup_word_id(*parent, e) == Some(id)),
        forall|s: Seq<char>| #[trigger]
            strings_contain(final(out)@, s) <==> strings_contain(old(out)@, s) || (exists|
                e: Seq<u8>,
            | #[trigger]
                reachable_word(
                    *parent,
                    board.width as int,
                    board.height as int,
                    board.grid(),
                    old(path)@,
                    old(word)@,
                    e,
                ) && s == decode_word(old(word)@ + e) && !old(words).spec_get(
                    lookup_word_id(*parent, e)->0 as nat,
                )),
        (no_dup_strings(old(out)@) && fresh_untracked_unemitted(
            *parent,
            board.width as int,
            board.height as int,
            board.grid(),
            old(path)@,
            old(word)@,
            *old(words),
            old(out)@,
        )) ==> no_dup_strings(final(out)@),
    decreases board.width * board.height - old(path)@.len(),
{
    let ghost wb = board.width as int;
    let ghost hb = board.height as int;
    let ghost g = board.grid();
    let ghost base_word = word@;
    let ghost base_path = path@;
    let ghost hh = no_dup_strings(out@) && fresh_untracked_unemitted(
        *parent,
        wb,
        hb,
        g,
        base_path,
        base_word,
        *words,
        out@,
    );
    let last = path[path.len() - 1];
    let mut it = parent.iter();
    loop
        invariant_except_break
            it.wf(),
            it.trie == parent,
            parent.wf(),
            board.wf(),
            distinct_ids(*parent),
            words.wf(),
            wb == board.width as int,
            hb == board.height as int,
            g == board.grid(),
            base_word == old(word)@,
            base_path == old(path)@,
            word@ == base_word,
            path@ == base_path,
            base_word.len() == base_path.len(),
            base_word.len() >= 1,
            forall|k: int| 0 <= k < base_word.len() ==> #[trigger] base_word[k] < 26,
            path_ok(wb, hb, g, base_path, base_word),
            last == base_path[base_path.len() - 1],
            hh ==> no_dup_strings(out@),
            hh == (no_dup_strings(old(out)@) && fresh_untracked_unemitted(
                *parent,
                wb,
                hb,
                g,
                base_path,
                base_word,
                *old(words),
                old(out)@,
            )),
            forall|id: usize| #[trigger]
                words.spec_get(id as nat) <==> old(words).spec_get(id as nat) || (exists|
                    e: Seq<u8>,
                | #[trigger]
                    reachable_word(*parent, wb, hb, g, base_path, base_word, e) && (e[0] as u32)
                        < it.iter.i && lookup_word_id(*parent, e) == Some(id)),
            forall|s: Seq<char>| #[trigger]
                strings_contain(out@, s) <==> strings_contain(old(out)@, s) || (exists|e: Seq<u8>|
                    #[trigger] reachable_word(*parent, wb, hb, g, base_path, base_word, e) && (
                    e[0] as u32) < it.iter.i && s == decode_word(base_word + e) && !old(
                        words,
                    ).spec_get(lookup_word_id(*parent, e)->0 as nat)),
        ensures
            word@ == base_word,
            path@ == base_path,
            words.wf(),
            hh ==> no_dup_strings(out@),
            forall|id: usize| #[trigger]
                words.spec_get(id as nat) <==> old(words).spec_get(id as nat) || (exists|
                    e: Seq<u8>,
                | #[trigger]
                    reachable_word(*parent, wb, hb, g, base_path, base_word, e)
                        && lookup_word_id(*parent, e) == Some(id)),
            forall|s: Seq<char>| #[trigger]
                strings_contain(out@, s) <==> strings_contain(old(out)@, s) || (exists|e: Seq<u8>|
                    #[trigger] reachable_word(*parent, wb, hb, g, base_path, base_word, e) && s
                        == decode_word(base_word + e) && !old(words).spec_get(
                        lookup_word_id(*parent, e)->0 as nat,
                    )),
        decreases 33 - it.iter.i,
    {
        let ghost cur = it.iter.i;
        match it.next() {
            None => {
                proof {
                    assert forall|e: Seq<u8>| #[trigger]
                        reachable_word(*parent, wb, hb, g, base_path, base_word, e) implies (
                    e[0] as u32) < cur by {
                        if (e[0] as u32) >= cur {
                            if e[0] < 26 {
                                assert(!parent.child_set.spec_get(e[0] as u32));
                                assert(parent.children@[e[0] as int] is None);
                            }
                            lemma_no_child_no_word(parent, e);
                        }
                    }
                }
                break ;
            },
            Some((child, l)) => {
                proof {
                    // letters between the cursor and `l` have no child
                    assert forall|e: Seq<u8>| #[trigger]
                        reachable_word(*parent, wb, hb, g, base_path, base_word, e) && (
                    e[0] as u32) < l as u32 implies (e[0] as u32) < cur by {
                        if (e[0] as u32) >= cur {
                            assert(!parent.child_set.spec_get(e[0] as u32));
                            assert(parent.children@[e[0] as int] is None);
                            lemma_no_child_no_word(parent, e);
                        }
                    }
                }
                word.push(l);
                let nbrs = board.neighbors(last, l);
                let mut m: usize = 0;
                let ghost mut done: Seq<usize> = Seq::empty();
                proof {
                    assert(nbrs@ == letter_neighbors(wb, hb, g, last as int, l));
                    assert(done =~= nbrs@.take(0));
                    assert(word@ =~= base_word.push(l));
                    // restate the invariant with the guard moved up to `l`
                    assert forall|id: usize| #[trigger]
                        words.spec_get(id as nat) <==> old(words).spec_get(id as nat) || (exists|
                            e: Seq<u8>,
                        | #[trigger]
                            reachable_word(*parent, wb, hb, g, base_path, base_word, e) && (
                            e[0] as u32) < l as u32 && lookup_word_id(*parent, e) == Some(
                                id,
                            )) by {
                        if exists|e: Seq<u8>| #[trigger]
                            reachable_word(*parent, wb, hb, g, base_path, base_word, e) && (
                        e[0] as u32) < l as u32 && lookup_word_id(*parent, e) == Some(id) {
                            let e = choose|e: Seq<u8>|
                                #[trigger] reachable_word(*parent, wb, hb, g, base_path, base_word, e)
                                    && (e[0] as u32) < l as u32 && lookup_word_id(*parent, e)
                                    == Some(id);
                            assert((e[0] as u32) < cur);
                        }
                    }
                    assert forall|s: Seq<char>| #[trigger]
                        strings_contain(out@, s) <==> strings_contain(old(out)@, s) || (exists|
                            e: Seq<u8>,
                        | #[trigger]
                            reachable_word(*parent, wb, hb, g, base_path, base_word, e) && (
                            e[0] as u32) < l as u32 && s == decode_word(base_word + e) && !old(
                                words,
                            ).spec_get(lookup_word_id(*parent, e)->0 as nat)) by {
                        if exists|e: Seq<u8>| #[trigger]
                            reachable_word(*parent, wb, hb, g, base_path, base_word, e) && (
                        e[0] as u32) < l as u32 && s == decode_word(base_word + e) && !old(
                            words,
                        ).spec_get(lookup_word_id(*parent, e)->0 as nat) {
                            let e = choose|e: Seq<u8>|
                                #[trigger] reachable_word(*parent, wb, hb, g, base_path, base_word, e)
                                    && (e[0] as u32) < l as u32 && s == decode_word(base_word + e)
                                    && !old(words).spec_get(
                                    lookup_word_id(*parent, e)->0 as nat,
                                );
                            assert((e[0] as u32) < cur);
                        }
                    }
                }
                loop
                    invariant_except_break
                        m <= nbrs@.len(),
                        nbrs@ == letter_neighbors(wb, hb, g, last as int, l),
                        done == nbrs@.take(m as int),
                        parent.wf(),
                        board.wf(),
                        distinct_ids(*parent),
                        words.wf(),
                        wb == board.width as int,
                        hb == board.height as int,
                        g == board.grid(),
                        base_word == old(word)@,
                        base_path == old(path)@,
                        word@ == base_word.push(l),
                        path@ == base_path,
                        base_word.len() == base_path.len(),
                        base_word.len() >= 1,
                        forall|k: int| 0 <= k < base_word.len() ==> #[trigger] base_word[k] < 26,
                        path_ok(wb, hb, g, base_path, base_word),
                        last == base_path[base_path.len() - 1],
                        l < 26,
                        parent.children@[l as int] is Some,
                        *child == *parent.children@[l as int]->0,
                        child.wf(),
                        hh ==> no_dup_strings(out@),
                        hh == (no_dup_strings(old(out)@) && fresh_untracked_unemitted(
                            *parent,
                            wb,
                            hb,
                            g,
                            base_path,
                            base_word,
                            *old(words),
                            old(out)@,
                        )),
                        forall|id: usize| #[trigger]
                            words.spec_get(id as nat) <==> old(words).spec_get(id as nat) || (
                            exists|e: Seq<u8>| #[trigger]
                                reachable_word(*parent, wb, hb, g, base_path, base_word, e) && (
                                e[0] as u32) < l as u32 && lookup_word_id(*parent, e) == Some(
                                    id,
                                )) || (exists|e: Seq<u8>, p: usize|
                                done.contains(p) && #[trigger] reach_via(
                                    *parent,
                                    wb,
                                    hb,
                                    g,
                                    base_path,
                                    base_word,
                                    e,
                                    p,
                                ) && e[0] == l && lookup_word_id(*parent, e) == Some(id)),
                        forall|s: Seq<char>| #[trigger]
                            strings_contain(out@, s) <==> strings_contain(old(out)@, s) || (exists|
                                e: Seq<u8>,
                            | #[trigger]
                                reachable_word(*parent, wb, hb, g, base_path, base_word, e) && (
                                e[0] as u32) < l as u32 && s == decode_word(base_word + e) && !old(
                                    words,
                                ).spec_get(lookup_word_id(*parent, e)->0 as nat)) || (exists|
                                e: Seq<u8>,
                                p: usize,
                            |
                                done.contains(p) && #[trigger] reach_via(
                                    *parent,
                                    wb,
                                    hb,
                                    g,
                                    base_path,
                                    base_word,
                                    e,
                                    p,
                                ) && e[0] == l && s == decode_word(base_word + e) && !old(
                                    words,
                                ).spec_get(lookup_word_id(*parent, e)->0 as nat)),
                    ensures
                        word@ == base_word.push(l),
                        path@ == base_path,
                        words.wf(),
                        hh ==> no_dup_strings(out@),
                        done == letter_neighbors(wb, hb, g, last as int, l),
                        forall|id: usize| #[trigger]
                            words.spec_get(id as nat) <==> old(words).spec_get(id as nat) || (
                            exists|e: Seq<u8>| #[trigger]
                                reachable_word(*parent, wb, hb, g, base_path, base_word, e) && (
                                e[0] as u32) < l as u32 && lookup_word_id(*parent, e) == Some(
                                    id,
                                )) || (exists|e: Seq<u8>, p: usize|
                                done.contains(p) && #[trigger] reach_via(
                                    *parent,
                                    wb,
                                    hb,
                                    g,
                                    base_path,
                                    base_word,
                                    e,
                                    p,
                                ) && e[0] == l && lookup_word_id(*parent, e) == Some(id)),
                        forall|s: Seq<char>| #[trigger]
                            strings_contain(out@, s) <==> strings_contain(old(out)@, s) || (exists|
                                e: Seq<u8>,
                            | #[trigger]
                                reachable_word(*parent, wb, hb, g, base_path, base_word, e) && (
                                e[0] as u32) < l as u32 && s == decode_word(base_word + e) && !old(
                                    words,
                                ).spec_get(lookup_word_id(*parent, e)->0 as nat)) || (exists|
                                e: Seq<u8>,
                                p: usize,
                            |
                                done.contains(p) && #[trigger] reach_via(
                                    *parent,
                                    wb,
                                    hb,
                                    g,
                                    base_path,
                                    base_word,
                                    e,
                                    p,
                                ) && e[0] == l && s == decode_word(base_word + e) && !old(
                                    words,
                                ).spec_get(lookup_word_id(*parent, e)->0 as nat)),
                    decreases nbrs@.len() - m,
                {
                    let ghost done0 = done;
                    if m >= nbrs.len() {
                        proof {
                            assert(done =~= letter_neighbors(wb, hb, g, last as int, l));
                        }
                        break ;
                    }
                    {
                        let pos = nbrs[m];
                        {
                            proof {
                                done = nbrs@.take(m + 1);
                                assert(done =~= done0 + seq![pos]);
                                assert(letter_neighbors(wb, hb, g, last as int, l).contains(pos))
                                    by {
                                    assert(letter_neighbors(wb, hb, g, last as int, l)[m as int]
                                        == pos);
                                }
                                crate::grid::lemma_letter_neighbors_exact(
                                    wb,
                                    hb,
                                    g,
                                    last as int,
                                    l,
                                );
                                assert(adjacent(wb, hb, last as int, pos as int) && g[pos as int]
                                    == Some(l));
                                crate::grid::lemma_adjacent_symmetric(
                                    wb,
                                    hb,
                                    last as int,
                                    pos as int,
                                );
                            }
                            if !contains_cell(path, pos) {
                                proof {
                                    lemma_path_extend(wb, hb, g, base_path, base_word, pos, l);
                                    assert(base_path.push(pos).len() <= wb * hb) by {
                                        lemma_simple_path_bound(
                                            wb,
                                            hb,
                                            g,
                                            base_path.push(pos),
                                            base_word.push(l),
                                        );
                                    }
                                    lemma_lookup_cons(parent, l, Seq::<u8>::empty());
                                    assert(seq![l] + Seq::<u8>::empty() =~= seq![l]);
                                    assert(child.lookup(Seq::<u8>::empty()) == Some(
                                        child.node_type,
                                    ));
                                }
                                path.push(pos);
                                let ghost words_pre = *words;
                                let ghost out_pre = out@;
                                match child.node_type() {
                                    NodeType::Word(id) => {
                                        proof {
                                            assert(lookup_word_id(*parent, seq![l]) == Some(id));
                                            assert(id < usize::MAX);
                                        }
                                        if !words.get(id) {
                                            words.add(id);
                                            let text = idx_vec_to_string(copy_letters(word));
                                            proof {
                                                lemma_push_contains(out@, text);
                                                assert(word@ =~= base_word + seq![l]);
                                                assert(reach_via(
                                                    *parent,
                                                    wb,
                                                    hb,
                                                    g,
                                                    base_path,
                                                    base_word,
                                                    seq![l],
                                                    pos,
                                                )) by {
                                                    let q = seq![pos];
                                                    assert(q.len() == 1 && q[0] == pos);
                                                    assert(base_path + q =~= base_path.push(pos));
                                                    assert(base_word + seq![l] =~= base_word.push(
                                                        l,
                                                    ));
                                                    assert(path_ok(
                                                        wb,
                                                        hb,
                                                        g,
                                                        base_path + q,
                                                        base_word + seq![l],
                                                    ));
                                                    assert(exists|q2: Seq<usize>|
                                                        q2.len() >= 1 && q2[0] == pos && path_ok(
                                                            wb,
                                                            hb,
                                                            g,
                                                            base_path + q2,
                                                            base_word + seq![l],
                                                        )) by {
                                                        assert(q.len() >= 1 && q[0] == pos
                                                            && path_ok(
                                                            wb,
                                                            hb,
                                                            g,
                                                            base_path + q,
                                                            base_word + seq![l],
                                                        ));
                                                    }
                                                }
                                                if hh {
                                                    // this word's text is not yet in the output
                                                    let s0 = decode_word(base_word + seq![l]);
                                                    assert(reachable_word(
                                                        *parent,
                                                        wb,
                                                        hb,
                                                        g,
                                                        base_path,
                                                        base_word,
                                                        seq![l],
                                                    ));
                                                    assert(!old(words).spec_get(id as nat)) by {
                                                        if old(words).spec_get(id as nat) {
                                                            assert(words_pre.spec_get(id as nat));
                                                        }
                                                    }
                                                    assert(!strings_contain(out@, s0)) by {
                                                        if strings_contain(out@, s0) {
                                                            if strings_contain(old(out)@, s0) {
                                                                assert(!strings_contain(
                                                                    old(out)@,
                                                                    decode_word(
                                                                        base_word + seq![l],
                                                                    ),
                                                                ));
                                                            } else if exists|e: Seq<u8>|
                                                                #[trigger] reachable_word(
                                                                    *parent,
                                                                    wb,
                                                                    hb,
                                                                    g,
                                                                    base_path,
                                                                    base_word,
                                                                    e,
                                                                ) && (e[0] as u32) < l as u32
                                                                    && s0 == decode_word(
                                                                    base_word + e,
                                                                ) && !old(words).spec_get(
                                                                    lookup_word_id(
                                                                        *parent,
                                                                        e,
                                                                    )->0 as nat,
                                                                ) {
                                                                let e = choose|e: Seq<u8>|
                                                                    #[trigger] reachable_word(
                                                                        *parent,
                                                                        wb,
                                                                        hb,
                                                                        g,
                                                                        base_path,
                                                                        base_word,
                                                                        e,
                                                                    ) && (e[0] as u32) < l as u32
                                                                        && s0 == decode_word(
                                                                        base_word + e,
                                                                    ) && !old(words).spec_get(
                                                                        lookup_word_id(
                                                                            *parent,
                                                                            e,
                                                                        )->0 as nat,
                                                                    );
                                                                lemma_same_text_same_word(
                                                                    *parent,
                                                                    base_word,
                                                                    e,
                                                                    seq![l],
                                                                );
                                                                assert(e[0] == l);
                                                            } else {
                                                                let (e, p) = choose|
                                                                    e: Seq<u8>,
                                                                    p: usize,
                                                                |
                                                                    done0.contains(p)
                                                                        && #[trigger] reach_via(
                                                                        *parent,
                                                                        wb,
                                                                        hb,
                                                                        g,
                                                                        base_path,
                                                                        base_word,
                                                                        e,
                                                                        p,
                                                                    ) && e[0] == l && s0
                                                                        == decode_word(
                                                                        base_word + e,
                                                                    ) && !old(words).spec_get(
                                                                        lookup_word_id(
                                                                            *parent,
                                                                            e,
                                                                        )->0 as nat,
                                                                    );
                                                                lemma_same_text_same_word(
                                                                    *parent,
                                                                    base_word,
                                                                    e,
                                                                    seq![l],
                                                                );
                                                                assert(lookup_word_id(*parent, e)
                                                                    == Some(id));
                                                                assert(words_pre.spec_get(
                                                                    id as nat,
                                                                ));
                                                            }
                                                        }
                                                    }
                                                    assert(text@ == s0);
                                                    lemma_no_dup_push(out@, text);
                                                }
                                            }
                                            out.push(text);
                                        }
                                    },
                                    _ => {},
                                }
                                let ghost words_mid = *words;
                                let ghost out_mid = out@;
                                proof {
                                    lemma_distinct_ids_child(parent, l, *child);
                                    lemma_reach_cons(
                                        parent,
                                        *child,
                                        wb,
                                        hb,
                                        g,
                                        base_path,
                                        base_word,
                                        l,
                                        pos,
                                    );
                                    assert(path@ =~= base_path.push(pos));
                                    assert(word@ =~= base_word.push(l));
                                    if hh {
                                        // the recursive call may not re-emit anything:
                                        // its fresh words are not yet in the output
                                        lemma_lookup_cons_all(parent, l);
                                        let cw0 = *child;
                                        let bp0 = base_path.push(pos);
                                        let bw0 = base_word.push(l);
                                        assert(fresh_untracked_unemitted(
                                            cw0,
                                            wb,
                                            hb,
                                            g,
                                            bp0,
                                            bw0,
                                            *words,
                                            out@,
                                        )) by {
                                            assert forall|e2: Seq<u8>| #[trigger]
                                                reachable_word(cw0, wb, hb, g, bp0, bw0, e2)
                                                    && !words.spec_get(
                                                    lookup_word_id(cw0, e2)->0 as nat,
                                                ) implies !strings_contain(
                                                out@,
                                                decode_word(bw0 + e2),
                                            ) by {
                                                let e = seq![l] + e2;
                                                assert(reach_via(
                                                    *parent,
                                                    wb,
                                                    hb,
                                                    g,
                                                    base_path,
                                                    base_word,
                                                    e,
                                                    pos,
                                                ));
                                                lemma_reach_via_weaken(
                                                    *parent,
                                                    wb,
                                                    hb,
                                                    g,
                                                    base_path,
                                                    base_word,
                                                    e,
                                                    pos,
                                                );
                                                assert(lookup_word_id(*parent, e)
                                                    == lookup_word_id(cw0, e2));
                                                let ide = lookup_word_id(*parent, e)->0;
                                                let s1 = decode_word(base_word + e);
                                                assert(decode_word(bw0 + e2) == s1) by {
                                                    assert(bw0 + e2 =~= base_word + e);
                                                }
                                                if strings_contain(out@, s1) {
                                                    if !strings_contain(out_pre, s1) {
                                                        // it would be the text emitted just
                                                        // above, but that names a shorter word
                                                        assert(s1 == decode_word(
                                                            base_word + seq![l],
                                                        ));
                                                        lemma_same_text_same_word(
                                                            *parent,
                                                            base_word,
                                                            e,
                                                            seq![l],
                                                        );
                                                        assert(e2.len() >= 1);
                                                        assert((seq![l] + e2).len() >= 2);
                                                    } else {
                                                        assert(!old(words).spec_get(
                                                            ide as nat,
                                                        )) by {
                                                            if old(words).spec_get(ide as nat) {
                                                                assert(words_pre.spec_get(
                                                                    ide as nat,
                                                                ));
                                                            }
                                                        }
                                                        if strings_contain(old(out)@, s1) {
                                                            assert(!strings_contain(
                                                                old(out)@,
                                                                decode_word(base_word + e),
                                                            ));
                                                        } else if exists|e3: Seq<u8>|
                                                            #[trigger] reachable_word(
                                                                *parent,
                                                                wb,
                                                                hb,
                                                                g,
                                                                base_path,
                                                                base_word,
                                                                e3,
                                                            ) && (e3[0] as u32) < l as u32 && s1
                                                                == decode_word(base_word + e3)
                                                                && !old(words).spec_get(
                                                                lookup_word_id(
                                                                    *parent,
                                                                    e3,
                                                                )->0 as nat,
                                                            ) {
                                                            let e3 = choose|e3: Seq<u8>|
                                                                #[trigger] reachable_word(
                                                                    *parent,
                                                                    wb,
                                                                    hb,
                                                                    g,
                                                                    base_path,
                                                                    base_word,
                                                                    e3,
                                                                ) && (e3[0] as u32) < l as u32
                                                                    && s1 == decode_word(
                                                                    base_word + e3,
                                                                ) && !old(words).spec_get(
                                                                    lookup_word_id(
                                                                        *parent,
                                                                        e3,
                                                                    )->0 as nat,
                                                                );
                                                            lemma_same_text_same_word(
                                                                *parent,
                                                                base_word,
                                                                e3,
                                                                e,
                                                            );
                                                            assert(e3[0] == l);
                                                        } else {
                                                            let (e3, p3) = choose|
                                                                e3: Seq<u8>,
                                                                p3: usize,
                                                            |
                                                                done0.contains(p3)
                                                                    && #[trigger] reach_via(
                                                                    *parent,
                                                                    wb,
                                                                    hb,
                                                                    g,
                                                                    base_path,
                                                                    base_word,
                                                                    e3,
                                                                    p3,
                                                                ) && e3[0] == l && s1
                                                                    == decode_word(
                                                                    base_word + e3,
                                                                ) && !old(words).spec_get(
                                                                    lookup_word_id(
                                                                        *parent,
                                                                        e3,
                                                                    )->0 as nat,
                                                                );
                                                            lemma_same_text_same_word(
                                                                *parent,
                                                                base_word,
                                                                e3,
                                                                e,
                                                            );
                                                            assert(lookup_word_id(*parent, e3)
                                                                == Some(ide));
                                                            assert(words_pre.spec_get(
                                                                ide as nat,
                                                            ));
                                                        }
                                                    }
                                                }
                                            }
                                        }
                                    }
                                }
                                descend(child, board, word, path, words, out);
                                proof {
                                    assert(path@ =~= base_path.push(pos));
                                }
                                path.pop();
                                proof {
                                    assert(path@ =~= base_path);
                                    // fold this cell's contributions into the invariant
                                    lemma_snoc_contains(done0, done, pos);
                                    lemma_lookup_cons_all(parent, l);
                                    let cw = *child;
                                    let bp = base_path.push(pos);
                                    let bw = base_word.push(l);
                                    assert forall|e2: Seq<u8>| #[trigger]
                                        decode_word(bw + e2) == decode_word(
                                        base_word + (seq![l] + e2),
                                    ) by {
                                        assert(bw + e2 =~= base_word + (seq![l] + e2));
                                    }
                                    // the tracker after this step
                                    assert forall|id: usize| #[trigger]
                                        words.spec_get(id as nat) <==> old(words).spec_get(
                                        id as nat,
                                    ) || (exists|e: Seq<u8>| #[trigger]
                                        reachable_word(
                                            *parent,
                                            wb,
                                            hb,
                                            g,
                                            base_path,
                                            base_word,
                                            e,
                                        ) && (e[0] as u32) < l as u32 && lookup_word_id(*parent, e)
                                            == Some(id)) || (exists|e: Seq<u8>, p: usize|
                                        done.contains(p) && #[trigger] reach_via(
                                            *parent,
                                            wb,
                                            hb,
                                            g,
                                            base_path,
                                            base_word,
                                            e,
                                            p,
                                        ) && e[0] == l && lookup_word_id(*parent, e) == Some(
                                            id,
                                        )) by {
                                        if words.spec_get(id as nat) {
                                            if !words_mid.spec_get(id as nat) {
                                                let e2 = choose|e2: Seq<u8>|
                                                    #[trigger] reachable_word(cw, wb, hb, g, bp, bw, e2)
                                                        && lookup_word_id(cw, e2) == Some(id);
                                                assert(reach_via(
                                                    *parent,
                                                    wb,
                                                    hb,
                                                    g,
                                                    base_path,
                                                    base_word,
                                                    seq![l] + e2,
                                                    pos,
                                                ));
                                                assert((seq![l] + e2)[0] == l);
                                                assert(lookup_word_id(*parent, seq![l] + e2)
                                                    == Some(id));
                                            } else if !words_pre.spec_get(id as nat) {
                                                // the single-letter word was recorded here
                                                assert(lookup_word_id(*parent, seq![l]) == Some(
                                                    id,
                                                ));
                                                assert(reach_via(
                                                    *parent,
                                                    wb,
                                                    hb,
                                                    g,
                                                    base_path,
                                                    base_word,
                                                    seq![l],
                                                    pos,
                                                ));
                                                assert(seq![l][0] == l);
                                            } else {
                                                // carried over: re-exhibit the witness with
                                                // the grown cell set
                                                if !old(words).spec_get(id as nat) && !(exists|
                                                    e: Seq<u8>,
                                                | #[trigger]
                                                    reachable_word(
                                                        *parent,
                                                        wb,
                                                        hb,
                                                        g,
                                                        base_path,
                                                        base_word,
                                                        e,
                                                    ) && (e[0] as u32) < l as u32
                                                        && lookup_word_id(*parent, e) == Some(
                                                        id,
                                                    )) {
                                                    let (e, p) = choose|e: Seq<u8>, p: usize|
                                                        done0.contains(p) && #[trigger] reach_via(
                                                            *parent,
                                                            wb,
                                                            hb,
                                                            g,
                                                            base_path,
                                                            base_word,
                                                            e,
                                                            p,
                                                        ) && e[0] == l && lookup_word_id(
                                                            *parent,
                                                            e,
                                                        ) == Some(id);
                                                    assert(done.contains(p));
                                                }
                                            }
                                        }
                                        if old(words).spec_get(id as nat) {
                                            assert(words_pre.spec_get(id as nat));
                                            assert(words_mid.spec_get(id as nat));
                                        }
                                        if exists|e: Seq<u8>| #[trigger]
                                            reachable_word(
                                                *parent,
                                                wb,
                                                hb,
                                                g,
                                                base_path,
                                                base_word,
                                                e,
                                            ) && (e[0] as u32) < l as u32 && lookup_word_id(
                                            *parent,
                                            e,
                                        ) == Some(id) {
                                            assert(words_pre.spec_get(id as nat));
                                            assert(words_mid.spec_get(id as nat));
                                        }
                                        if exists|e: Seq<u8>, p: usize|
                                            done.contains(p) && #[trigger] reach_via(
                                                *parent,
                                                wb,
                                                hb,
                                                g,
                                                base_path,
                                                base_word,
                                                e,
                                                p,
                                            ) && e[0] == l && lookup_word_id(*parent, e) == Some(
                                            id,
                                        ) {
                                            let (e, p) = choose|e: Seq<u8>, p: usize|
                                                done.contains(p) && #[trigger] reach_via(
                                                    *parent,
                                                    wb,
                                                    hb,
                                                    g,
                                                    base_path,
                                                    base_word,
                                                    e,
                                                    p,
                                                ) && e[0] == l && lookup_word_id(*parent, e)
                                                    == Some(id);
                                            if done0.contains(p) {
                                                assert(words_pre.spec_get(id as nat));
                                                assert(words_mid.spec_get(id as nat));
                                            } else {
                                                assert(p == pos);
                                                if e.len() == 1 {
                                                    assert(e =~= seq![l]);
                                                    assert(lookup_word_id(*parent, seq![l])
                                                        == Some(id));
                                                    assert(words_mid.spec_get(id as nat));
                                                } else {
                                                    lemma_head_tail(e, l);
                                                    let e2 = e.drop_first();
                                                    assert(reach_via(
                                                        *parent,
                                                        wb,
                                                        hb,
                                                        g,
                                                        base_path,
                                                        base_word,
                                                        seq![l] + e2,
                                                        pos,
                                                    ));
                                                    assert(e2.len() >= 1);
                                                    assert(reachable_word(
                                                        cw,
                                                        wb,
                                                        hb,
                                                        g,
                                                        bp,
                                                        bw,
                                                        e2,
                                                    ));
                                                    assert(lookup_word_id(cw, e2) == Some(id));
                                                    assert(words.spec_get(id as nat));
                                                }
                                            }
                                        }
                                    }
                                    // the output after this step
                                    assert forall|s: Seq<char>| #[trigger]
                                        strings_contain(out@, s) <==> strings_contain(
                                        old(out)@,
                                        s,
                                    ) || (exists|e: Seq<u8>| #[trigger]
                                        reachable_word(
                                            *parent,
                                            wb,
                                            hb,
                                            g,
                                            base_path,
                                            base_word,
                                            e,
                                        ) && (e[0] as u32) < l as u32 && s == decode_word(
                                            base_word + e,
                                        ) && !old(words).spec_get(
                                            lookup_word_id(*parent, e)->0 as nat,
                                        )) || (exists|e: Seq<u8>, p: usize|
                                        done.contains(p) && #[trigger] reach_via(
                                            *parent,
                                            wb,
                                            hb,
                                            g,
                                            base_path,
                                            base_word,
                                            e,
                                            p,
                                        ) && e[0] == l && s == decode_word(base_word + e) && !old(
                                            words,
                                        ).spec_get(lookup_word_id(*parent, e)->0 as nat)) by {
                                        if strings_contain(out@, s) {
                                            if !strings_contain(out_mid, s) {
                                                let e2 = choose|e2: Seq<u8>|
                                                    #[trigger] reachable_word(cw, wb, hb, g, bp, bw, e2)
                                                        && s == decode_word(bw + e2)
                                                        && !words_mid.spec_get(
                                                        lookup_word_id(cw, e2)->0 as nat,
                                                    );
                                                let e = seq![l] + e2;
                                                assert(reach_via(
                                                    *parent,
                                                    wb,
                                                    hb,
                                                    g,
                                                    base_path,
                                                    base_word,
                                                    e,
                                                    pos,
                                                ));
                                                assert(e[0] == l);
                                                assert(s == decode_word(base_word + e));
                                                assert(!old(words).spec_get(
                                                    lookup_word_id(*parent, e)->0 as nat,
                                                ));
                                            } else if !strings_contain(out_pre, s) {
                                                assert(lookup_word_id(*parent, seq![l])
                                                    is Some);
                                                let id0 = lookup_word_id(*parent, seq![l])->0;
                                                assert(s == decode_word(base_word + seq![l]));
                                                assert(!words_pre.spec_get(id0 as nat));
                                                assert(!old(words).spec_get(id0 as nat));
                                                assert(reach_via(
                                                    *parent,
                                                    wb,
                                                    hb,
                                                    g,
                                                    base_path,
                                                    base_word,
                                                    seq![l],
                                                    pos,
                                                ));
                                                assert(seq![l][0] == l);
                                            } else {
                                                // carried over: re-exhibit the witness with
                                                // the grown cell set
                                                if !strings_contain(old(out)@, s) && !(exists|
                                                    e: Seq<u8>,
                                                | #[trigger]
                                                    reachable_word(
                                                        *parent,
                                                        wb,
                                                        hb,
                                                        g,
                                                        base_path,
                                                        base_word,
                                                        e,
                                                    ) && (e[0] as u32) < l as u32 && s
                                                        == decode_word(base_word + e) && !old(
                                                        words,
                                                    ).spec_get(
                                                        lookup_word_id(*parent, e)->0 as nat,
                                                    )) {
                                                    let (e, p) = choose|e: Seq<u8>, p: usize|
                                                        done0.contains(p) && #[trigger] reach_via(
                                                            *parent,
                                                            wb,
                                                            hb,
                                                            g,
                                                            base_path,
                                                            base_word,
                                                            e,
                                                            p,
                                                        ) && e[0] == l && s == decode_word(
                                                            base_word + e,
                                                        ) && !old(words).spec_get(
                                                            lookup_word_id(*parent, e)->0 as nat,
                                                        );
                                                    assert(done.contains(p));
                                                }
                                            }
                                        }
                                        if strings_contain(old(out)@, s) {
                                            assert(strings_contain(out_pre, s));
                                            assert(strings_contain(out_mid, s));
                                            assert(strings_contain(out@, s));
                                        }
                                        if exists|e: Seq<u8>| #[trigger]
                                            reachable_word(
                                                *parent,
                                                wb,
                                                hb,
                                                g,
                                                base_path,
                                                base_word,
                                                e,
                                            ) && (e[0] as u32) < l as u32 && s == decode_word(
                                            base_word + e,
                                        ) && !old(words).spec_get(
                                            lookup_word_id(*parent, e)->0 as nat,
                                        ) {
                                            assert(strings_contain(out_pre, s));
                                            assert(strings_contain(out_mid, s));
                                            assert(strings_contain(out@, s));
                                        }
                                        if exists|e: Seq<u8>, p: usize|
                                            done.contains(p) && #[trigger] reach_via(
                                                *parent,
                                                wb,
                                                hb,
                                                g,
                                                base_path,
                                                base_word,
                                                e,
                                                p,
                                            ) && e[0] == l && s == decode_word(base_word + e)
                                            && !old(words).spec_get(
                                            lookup_word_id(*parent, e)->0 as nat,
                                        ) {
                                            let (e, p) = choose|e: Seq<u8>, p: usize|
                                                done.contains(p) && #[trigger] reach_via(
                                                    *parent,
                                                    wb,
                                                    hb,
                                                    g,
                                                    base_path,
                                                    base_word,
                                                    e,
                                                    p,
                                                ) && e[0] == l && s == decode_word(base_word + e)
                                                    && !old(words).spec_get(
                                                    lookup_word_id(*parent, e)->0 as nat,
                                                );
                                            let ide = lookup_word_id(*parent, e)->0;
                                            if done0.contains(p) {
                                                assert(strings_contain(out_pre, s));
                                                assert(strings_contain(out_mid, s));
                                                assert(strings_contain(out@, s));
                                            } else {
                                                assert(p == pos);
                                                if e.len() == 1 {
                                                    assert(e =~= seq![l]);
                                                    let id0 = lookup_word_id(
                                                        *parent,
                                                        seq![l],
                                                    )->0;
                                                    assert(id0 == ide);
                                                    if !words_pre.spec_get(id0 as nat) {
                                                        assert(strings_contain(out_mid, s));
                                                        assert(strings_contain(out@, s));
                                                    } else {
                                                        // already recorded: its text was
                                                        // already emitted for this very word
                                                        assert(!old(words).spec_get(
                                                            id0 as nat,
                                                        ));
                                                        let ep = choose|
                                                            ep: Seq<u8>,
                                                            pp: usize,
                                                        |
                                                            done0.contains(pp) && #[trigger] reach_via(
                                                                *parent,
                                                                wb,
                                                                hb,
                                                                g,
                                                                base_path,
                                                                base_word,
                                                                ep,
                                                                pp,
                                                            ) && ep[0] == l && lookup_word_id(
                                                                *parent,
                                                                ep,
                                                            ) == Some(id0);
                                                        assert(ep.0 == seq![l]) by {
                                                            if ep.0 != seq![l] {
                                                                assert(lookup_word_id(
                                                                    *parent,
                                                                    ep.0,
                                                                ) != lookup_word_id(
                                                                    *parent,
                                                                    seq![l],
                                                                ));
                                                            }
                                                        }
                                                        assert(strings_contain(out_pre, s));
                                                        assert(strings_contain(out@, s));
                                                    }
                                                } else {
                                                    lemma_head_tail(e, l);
                                                    let e2 = e.drop_first();
                                                    assert(e2.len() >= 1);
                                                    assert(reachable_word(
                                                        cw,
                                                        wb,
                                                        hb,
                                                        g,
                                                        bp,
                                                        bw,
                                                        e2,
                                                    ));
                                                    assert(lookup_word_id(cw, e2) == Some(ide));
                                                    if !words_mid.spec_get(ide as nat) {
                                                        assert(s == decode_word(bw + e2));
                                                        assert(strings_contain(out@, s));
                                                    } else if !words_pre.spec_get(ide as nat) {
                                                        // recorded by the one-letter emission:
                                                        // then it names the same word, which
                                                        // has more than one letter
                                                        assert(lookup_word_id(
                                                            *parent,
                                                            seq![l],
                                                        ) == Some(ide));
                                                        assert(seq![l] != e);
                                                        assert(lookup_word_id(*parent, seq![l])
                                                            != lookup_word_id(*parent, e));
                                                        assert(false);
                                                    } else {
                                                        // tracked before this cell: the same
                                                        // word was handled through an earlier
                                                        // cell, and its text emitted then
                                                        assert(!old(words).spec_get(
                                                            ide as nat,
                                                        ));
                                                        let ep = choose|
                                                            ep: Seq<u8>,
                                                            pp: usize,
                                                        |
                                                            done0.contains(pp) && #[trigger] reach_via(
                                                                *parent,
                                                                wb,
                                                                hb,
                                                                g,
                                                                base_path,
                                                                base_word,
                                                                ep,
                                                                pp,
                                                            ) && ep[0] == l && lookup_word_id(
                                                                *parent,
                                                                ep,
                                                            ) == Some(ide);
                                                        assert(ep.0 == e) by {
                                                            if ep.0 != e {
                                                                assert(lookup_word_id(
                                                                    *parent,
                                                                    ep.0,
                                                                ) != lookup_word_id(*parent, e));
                                                            }
                                                        }
                                                        assert(strings_contain(out_pre, s));
                                                        assert(strings_contain(out@, s));
                                                    }
                                                }
                                            }
                                        }
                                    }
                                }
                            } else {
                                proof {
                                    lemma_blocked_cell(
                                        *parent,
                                        wb,
                                        hb,
                                        g,
                                        base_path,
                                        base_word,
                                        pos,
                                    );
                                    lemma_done_grow(
                                        parent,
                                        wb,
                                        hb,
                                        g,
                                        base_path,
                                        base_word,
                                        l,
                                        done0,
                                        done,
                                        pos,
                                    );
                                    assert forall|id: usize| #[trigger]
                                        words.spec_get(id as nat) <==> old(words).spec_get(
                                        id as nat,
                                    ) || (exists|e: Seq<u8>| #[trigger]
                                        reachable_word(
                                            *parent,
                                            wb,
                                            hb,
                                            g,
                                            base_path,
                                            base_word,
                                            e,
                                        ) && (e[0] as u32) < l as u32 && lookup_word_id(*parent, e)
                                            == Some(id)) || (exists|e: Seq<u8>, p: usize|
                                        done.contains(p) && #[trigger] reach_via(
                                            *parent,
                                            wb,
                                            hb,
                                            g,
                                            base_path,
                                            base_word,
                                            e,
                                            p,
                                        ) && e[0] == l && lookup_word_id(*parent, e) == Some(
                                            id,
                                        )) by {}
                                    assert forall|s: Seq<char>| #[trigger]
                                        strings_contain(out@, s) <==> strings_contain(
                                        old(out)@,
                                        s,
                                    ) || (exists|e: Seq<u8>| #[trigger]
                                        reachable_word(
                                            *parent,
                                            wb,
                                            hb,
                                            g,
                                            base_path,
                                            base_word,
                                            e,
                                        ) && (e[0] as u32) < l as u32 && s == decode_word(
                                            base_word + e,
                                        ) && !old(words).spec_get(
                                            lookup_word_id(*parent, e)->0 as nat,
                                        )) || (exists|e: Seq<u8>, p: usize|
                                        done.contains(p) && #[trigger] reach_via(
                                            *parent,
                                            wb,
                                            hb,
                                            g,
                                            base_path,
                                            base_word,
                                            e,
                                            p,
                                        ) && e[0] == l && s == decode_word(base_word + e) && !old(
                                            words,
                                        ).spec_get(lookup_word_id(*parent, e)->0 as nat)) by {}
                                }
                            }
                        }
                        m = m + 1;
                    }
                }
                proof {
                    // every subtree word starting with `l` reaches through some
                    // enumerated neighbor cell
                    crate::grid::lemma_letter_neighbors_exact(wb, hb, g, last as int, l);
                    assert forall|e: Seq<u8>| #[trigger]
                        reachable_word(*parent, wb, hb, g, base_path, base_word, e) && e[0]
                        == l implies exists|p: usize|
                        done.contains(p) && reach_via(
                            *parent,
                            wb,
                            hb,
                            g,
                            base_path,
                            base_word,
                            e,
                            p,
                        ) by {
                        let q = choose|q: Seq<usize>| path_ok(wb, hb, g, base_path + q, base_word + e);
                        assert(q.len() == e.len()) by {
                            assert((base_path + q).len() == (base_word + e).len());
                        }
                        lemma_path_junction(wb, hb, g, base_path, base_word, q, e);
                        let p = q[0];
                        assert(letter_neighbors(wb, hb, g, last as int, l).contains(p));
                        assert(reach_via(*parent, wb, hb, g, base_path, base_word, e, p));
                    }
                }
                word.pop();
                proof {
                    assert(word@ =~= base_word);
                    // assemble the outer invariant at the advanced cursor
                    assert forall|id: usize| #[trigger]
                        words.spec_get(id as nat) <==> old(words).spec_get(id as nat) || (exists|
                            e: Seq<u8>,
                        | #[trigger]
                            reachable_word(*parent, wb, hb, g, base_path, base_word, e) && (
                            e[0] as u32) < l as u32 + 1 && lookup_word_id(*parent, e) == Some(
                                id,
                            )) by {
                        if words.spec_get(id as nat) && !old(words).spec_get(id as nat) {
                            if exists|e: Seq<u8>, p: usize|
                                done.contains(p) && #[trigger] reach_via(
                                    *parent,
                                    wb,
                                    hb,
                                    g,
                                    base_path,
                                    base_word,
                                    e,
                                    p,
                                ) && e[0] == l && lookup_word_id(*parent, e) == Some(id) {
                                let (e, p) = choose|e: Seq<u8>, p: usize|
                                    done.contains(p) && #[trigger] reach_via(
                                        *parent,
                                        wb,
                                        hb,
                                        g,
                                        base_path,
                                        base_word,
                                        e,
                                        p,
                                    ) && e[0] == l && lookup_word_id(*parent, e) == Some(id);
                                assert(reachable_word(*parent, wb, hb, g, base_path, base_word, e));
                                assert((e[0] as u32) < l as u32 + 1);
                            }
                        }
                        if exists|e: Seq<u8>| #[trigger]
                            reachable_word(*parent, wb, hb, g, base_path, base_word, e) && (
                        e[0] as u32) < l as u32 + 1 && lookup_word_id(*parent, e) == Some(id) {
                            let e = choose|e: Seq<u8>|
                                #[trigger] reachable_word(*parent, wb, hb, g, base_path, base_word, e)
                                    && (e[0] as u32) < l as u32 + 1 && lookup_word_id(*parent, e)
                                    == Some(id);
                            if e[0] == l {
                                assert(words.spec_get(id as nat));
                            }
                        }
                    }
                    assert forall|s: Seq<char>| #[trigger]
                        strings_contain(out@, s) <==> strings_contain(old(out)@, s) || (exists|
                            e: Seq<u8>,
                        | #[trigger]
                            reachable_word(*parent, wb, hb, g, base_path, base_word, e) && (
                            e[0] as u32) < l as u32 + 1 && s == decode_word(base_word + e) && !old(
                                words,
                            ).spec_get(lookup_word_id(*parent, e)->0 as nat)) by {
                        if strings_contain(out@, s) && !strings_contain(old(out)@, s) {
                            if exists|e: Seq<u8>, p: usize|
                                done.contains(p) && #[trigger] reach_via(
                                    *parent,
                                    wb,
                                    hb,
                                    g,
                                    base_path,
                                    base_word,
                                    e,
                                    p,
                                ) && e[0] == l && s == decode_word(base_word + e) && !old(
                                words,
                            ).spec_get(lookup_word_id(*parent, e)->0 as nat) {
                                let (e, p) = choose|e: Seq<u8>, p: usize|
                                    done.contains(p) && #[trigger] reach_via(
                                        *parent,
                                        wb,
                                        hb,
                                        g,
                                        base_path,
                                        base_word,
                                        e,
                                        p,
                                    ) && e[0] == l && s == decode_word(base_word + e) && !old(
                                    words,
                                ).spec_get(lookup_word_id(*parent, e)->0 as nat);
                                assert(reachable_word(*parent, wb, hb, g, base_path, base_word, e));
                                assert((e[0] as u32) < l as u32 + 1);
                            }
                        }
                        if exists|e: Seq<u8>| #[trigger]
                            reachable_word(*parent, wb, hb, g, base_path, base_word, e) && (
                        e[0] as u32) < l as u32 + 1 && s == decode_word(base_word + e) && !old(
                            words,
                        ).spec_get(lookup_word_id(*parent, e)->0 as nat) {
                            let e = choose|e: Seq<u8>|
                                #[trigger] reachable_word(*parent, wb, hb, g, base_path, base_word, e)
                                    && (e[0] as u32) < l as u32 + 1 && s == decode_word(
                                    base_word + e,
                                ) && !old(words).spec_get(lookup_word_id(*parent, e)->0 as nat);
                            if e[0] == l {
                                let q = choose|q: Seq<usize>|
                                    path_ok(wb, hb, g, base_path + q, base_word + e);
                                assert(q.len() == e.len()) by {
                                    assert((base_path + q).len() == (base_word + e).len());
                                }
                                lemma_path_junction(wb, hb, g, base_path, base_word, q, e);
                                assert(letter_neighbors(wb, hb, g, last as int, l).contains(
                                    q[0],
                                ));
                                assert(reach_via(
                                    *parent,
                                    wb,
                                    hb,
                                    g,
                                    base_path,
                                    base_word,
                                    e,
                                    q[0],
                                ));
                                assert(strings_contain(out@, s));
                            }
                        }
                    }
                }
            },
        }
    }
}


/// The eager search over the plain board: explores the whole
/// trie/board product and returns the texts of exactly the dictionary
/// words of two or more letters traceable as simple paths, each once.
#[verifier::rlimit(100)]
#[verifier::spinoff_prover]
pub fn solve(root: &Trie, board: &SimpleBoggleBoard) -> (out: Vec<String>)
    requires
        root.wf(),
        board.wf(),
        distinct_ids(*root),
    ensures
        no_dup_strings(out@),
        forall|s: Seq<char>| #[trigger]
            strings_contain(out@, s) <==> (exists|wd: Seq<u8>| #[trigger]
                is_found_word(
                    *root,
                    board.width as int,
                    board.height as int,
                    board.grid(),
                    wd,
                ) && s == decode_word(wd)),
{
    let ghost wb = board.width as int;
    let ghost hb = board.height as int;
    let ghost g = board.grid();
    let ghost ep = Seq::<usize>::empty();
    let ghost ew = Seq::<u8>::empty();
    let mut word: Vec<u8> = Vec::new();
    let mut path: Vec<usize> = Vec::new();
    let mut words = BitSet::new();
    let mut out: Vec<String> = Vec::new();
    let mut it = root.iter();
    loop
        invariant_except_break
            it.wf(),
            it.trie == root,
            root.wf(),
            board.wf(),
            distinct_ids(*root),
            words.wf(),
            wb == board.width as int,
            hb == board.height as int,
            g == board.grid(),
            word@ == ew,
            path@ == ep,
            ep == Seq::<usize>::empty(),
            ew == Seq::<u8>::empty(),
            no_dup_strings(out@),
            forall|id: usize| #[trigger]
                words.spec_get(id as nat) <==> (exists|wd: Seq<u8>| #[trigger]
                    is_found_word(*root, wb, hb, g, wd) && (wd[0] as u32) < it.iter.i
                        && lookup_word_id(*root, wd) == Some(id)),
            forall|s: Seq<char>| #[trigger]
                strings_contain(out@, s) <==> (exists|wd: Seq<u8>| #[trigger]
                    is_found_word(*root, wb, hb, g, wd) && (wd[0] as u32) < it.iter.i && s
                        == decode_word(wd)),
        ensures
            no_dup_strings(out@),
            forall|s: Seq<char>| #[trigger]
                strings_contain(out@, s) <==> (exists|wd: Seq<u8>| #[trigger]
                    is_found_word(*root, wb, hb, g, wd) && s == decode_word(wd)),
        decreases 33 - it.iter.i,
    {
        let ghost cur = it.iter.i;
        match it.next() {
            None => {
                proof {
                    assert forall|s: Seq<char>| #[trigger]
                        strings_contain(out@, s) <==> (exists|wd: Seq<u8>| #[trigger]
                            is_found_word(*root, wb, hb, g, wd) && s == decode_word(wd)) by {
                        if exists|wd: Seq<u8>| #[trigger]
                            is_found_word(*root, wb, hb, g, wd) && s == decode_word(wd) {
                            let wd = choose|wd: Seq<u8>|
                                #[trigger] is_found_word(*root, wb, hb, g, wd) && s == decode_word(
                                    wd,
                                );
                            if (wd[0] as u32) >= cur {
                                if wd[0] < 26 {
                                    assert(!root.child_set.spec_get(wd[0] as u32));
                                    assert(root.children@[wd[0] as int] is None);
                                }
                                lemma_no_child_no_word(root, wd);
                            }
                        }
                    }
                }
                break ;
            },
            Some((child, l)) => {
                proof {
                    assert forall|wd: Seq<u8>| #[trigger]
                        is_found_word(*root, wb, hb, g, wd) && (wd[0] as u32)
                        < l as u32 implies (wd[0] as u32) < cur by {
                        if (wd[0] as u32) >= cur {
                            assert(!root.child_set.spec_get(wd[0] as u32));
                            assert(root.children@[wd[0] as int] is None);
                            lemma_no_child_no_word(root, wd);
                        }
                    }
                }
                word.push(l);
                let cells = board.any(l);
                let mut m: usize = 0;
                proof {
                    crate::grid::lemma_cells_with_exact(g, l);
                }
                loop
                    invariant_except_break
                        m <= cells@.len(),
                        cells@ == cells_with(g, l),
                        forall|k2: usize| #[trigger]
                            cells_with(g, l).contains(k2) <==> (k2 < g.len() && g[k2 as int]
                                == Some(l)),
                        root.wf(),
                        board.wf(),
                        distinct_ids(*root),
                        words.wf(),
                        wb == board.width as int,
                        hb == board.height as int,
                        g == board.grid(),
                        word@ == seq![l],
                        path@ == ep,
                        ep == Seq::<usize>::empty(),
                        ew == Seq::<u8>::empty(),
                        l < 26,
                        root.children@[l as int] is Some,
                        *child == *root.children@[l as int]->0,
                        child.wf(),
                        no_dup_strings(out@),
                        forall|id: usize| #[trigger]
                            words.spec_get(id as nat) <==> (exists|wd: Seq<u8>| #[trigger]
                                is_found_word(*root, wb, hb, g, wd) && (wd[0] as u32) < l as u32
                                    && lookup_word_id(*root, wd) == Some(id)) || (exists|
                                e: Seq<u8>,
                                p: usize,
                            |
                                cells@.take(m as int).contains(p) && #[trigger] reach_via(
                                    *root,
                                    wb,
                                    hb,
                                    g,
                                    ep,
                                    ew,
                                    e,
                                    p,
                                ) && e[0] == l && e.len() >= 2 && lookup_word_id(*root, e)
                                    == Some(id)),
                        forall|s: Seq<char>| #[trigger]
                            strings_contain(out@, s) <==> (exists|wd: Seq<u8>| #[trigger]
                                is_found_word(*root, wb, hb, g, wd) && (wd[0] as u32) < l as u32
                                    && s == decode_word(wd)) || (exists|e: Seq<u8>, p: usize|
                                cells@.take(m as int).contains(p) && #[trigger] reach_via(
                                    *root,
                                    wb,
                                    hb,
                                    g,
                                    ep,
                                    ew,
                                    e,
                                    p,
                                ) && e[0] == l && e.len() >= 2 && s == decode_word(e)),
                    ensures
                        word@ == seq![l],
                        path@ == ep,
                        words.wf(),
                        no_dup_strings(out@),
                        forall|id: usize| #[trigger]
                            words.spec_get(id as nat) <==> (exists|wd: Seq<u8>| #[trigger]
                                is_found_word(*root, wb, hb, g, wd) && (wd[0] as u32) < l as u32
                                    + 1 && lookup_word_id(*root, wd) == Some(id)),
                        forall|s: Seq<char>| #[trigger]
                            strings_contain(out@, s) <==> (exists|wd: Seq<u8>| #[trigger]
                                is_found_word(*root, wb, hb, g, wd) && (wd[0] as u32) < l as u32
                                    + 1 && s == decode_word(wd)),
                    decreases cells@.len() - m,
                {
                    let ghost done0c = cells@.take(m as int);
                    if m >= cells.len() {
                        {
                            proof {
                                assert(done0c =~= cells@);
                                // every cell starting a word with this first letter
                                // holds the letter, so it lies below the cursor
                                assert forall|id: usize| #[trigger]
                                    words.spec_get(id as nat) <==> (exists|wd: Seq<u8>|
                                        #[trigger] is_found_word(*root, wb, hb, g, wd) && (
                                        wd[0] as u32) < l as u32 + 1 && lookup_word_id(*root, wd)
                                            == Some(id)) by {
                                    if exists|wd: Seq<u8>| #[trigger]
                                        is_found_word(*root, wb, hb, g, wd) && (wd[0] as u32)
                                        < l as u32 + 1 && lookup_word_id(*root, wd) == Some(id) {
                                        let wd = choose|wd: Seq<u8>|
                                            #[trigger] is_found_word(*root, wb, hb, g, wd) && (
                                            wd[0] as u32) < l as u32 + 1 && lookup_word_id(
                                                *root,
                                                wd,
                                            ) == Some(id);
                                        if wd[0] == l {
                                            let q = choose|q: Seq<usize>| path_ok(wb, hb, g, q, wd);
                                            assert(q.len() == wd.len());
                                            assert(g[q[0] as int] == Some(l));
                                            assert(cells_with(g, l).contains(q[0]));
                                            assert(done0c.contains(q[0]));
                                            assert(ep + q =~= q && ew + wd =~= wd);
                                            assert(reach_via(*root, wb, hb, g, ep, ew, wd, q[0]));
                                            assert(words.spec_get(id as nat));
                                        }
                                    }
                                    if words.spec_get(id as nat) {
                                        if exists|e: Seq<u8>, p: usize|
                                            done0c.contains(p) && #[trigger] reach_via(
                                                *root,
                                                wb,
                                                hb,
                                                g,
                                                ep,
                                                ew,
                                                e,
                                                p,
                                            ) && e[0] == l && e.len() >= 2 && lookup_word_id(
                                            *root,
                                            e,
                                        ) == Some(id) {
                                            let (e, p) = choose|e: Seq<u8>, p: usize|
                                                done0c.contains(p) && #[trigger] reach_via(
                                                    *root,
                                                    wb,
                                                    hb,
                                                    g,
                                                    ep,
                                                    ew,
                                                    e,
                                                    p,
                                                ) && e[0] == l && e.len() >= 2 && lookup_word_id(
                                                    *root,
                                                    e,
                                                ) == Some(id);
                                            let q = choose|q: Seq<usize>|
                                                q.len() >= 1 && q[0] == p && path_ok(
                                                    wb,
                                                    hb,
                                                    g,
                                                    ep + q,
                                                    ew + e,
                                                );
                                            assert(ep + q =~= q && ew + e =~= e);
                                            assert(is_found_word(*root, wb, hb, g, e));
                                        }
                                    }
                                }
                                assert forall|s: Seq<char>| #[trigger]
                                    strings_contain(out@, s) <==> (exists|wd: Seq<u8>|
                                        #[trigger] is_found_word(*root, wb, hb, g, wd) && (
                                        wd[0] as u32) < l as u32 + 1 && s == decode_word(
                                            wd,
                                        )) by {
                                    if exists|wd: Seq<u8>| #[trigger]
                                        is_found_word(*root, wb, hb, g, wd) && (wd[0] as u32)
                                        < l as u32 + 1 && s == decode_word(wd) {
                                        let wd = choose|wd: Seq<u8>|
                                            #[trigger] is_found_word(*root, wb, hb, g, wd) && (
                                            wd[0] as u32) < l as u32 + 1 && s == decode_word(wd);
                                        if wd[0] == l {
                                            let q = choose|q: Seq<usize>| path_ok(wb, hb, g, q, wd);
                                            assert(q.len() == wd.len());
                                            assert(g[q[0] as int] == Some(l));
                                            assert(cells_with(g, l).contains(q[0]));
                                            assert(done0c.contains(q[0]));
                                            assert(ep + q =~= q && ew + wd =~= wd);
                                            assert(reach_via(*root, wb, hb, g, ep, ew, wd, q[0]));
                                            assert(strings_contain(out@, s));
                                        }
                                    }
                                    if strings_contain(out@, s) {
                                        if exists|e: Seq<u8>, p: usize|
                                            done0c.contains(p) && #[trigger] reach_via(
                                                *root,
                                                wb,
                                                hb,
                                                g,
                                                ep,
                                                ew,
                                                e,
                                                p,
                                            ) && e[0] == l && e.len() >= 2 && s == decode_word(
                                            e,
                                        ) {
                                            let (e, p) = choose|e: Seq<u8>, p: usize|
                                                done0c.contains(p) && #[trigger] reach_via(
                                                    *root,
                                                    wb,
                                                    hb,
                                                    g,
                                                    ep,
                                                    ew,
                                                    e,
                                                    p,
                                                ) && e[0] == l && e.len() >= 2 && s
                                                    == decode_word(e);
                                            let q = choose|q: Seq<usize>|
                                                q.len() >= 1 && q[0] == p && path_ok(
                                                    wb,
                                                    hb,
                                                    g,
                                                    ep + q,
                                                    ew + e,
                                                );
                                            assert(ep + q =~= q && ew + e =~= e);
                                            assert(is_found_word(*root, wb, hb, g, e));
                                        }
                                    }
                                }
                            }
                            break ;
                        }
                    }
                    {
                        let pos = cells[m];
                        {
                            proof {
                                assert(cells@[m as int] == pos);
                                assert(cells_with(g, l).contains(pos));
                                assert(pos < board.width * board.height && g[pos as int] == Some(
                                    l,
                                )) by {
                                    assert(g.len() == board.width * board.height);
                                }
                                assert(path_ok(wb, hb, g, seq![pos], seq![l])) by {
                                    assert(seq![pos][0] == pos && seq![l][0] == l);
                                }
                                assert(ep.push(pos) =~= seq![pos]);
                                assert(ew.push(l) =~= seq![l]);
                                lemma_simple_path_bound(wb, hb, g, seq![pos], seq![l]);
                                lemma_distinct_ids_child(root, l, *child);
                                lemma_reach_cons(root, *child, wb, hb, g, ep, ew, l, pos);
                                lemma_lookup_cons_all(root, l);
                            }
                            path.push(pos);
                            let ghost words_pre = words;
                            let ghost out_pre = out@;
                            proof {
                                assert(path@ =~= seq![pos]);
                                // the call may not re-emit: its fresh words are
                                // not yet in the output
                                let cw0 = *child;
                                let bp0 = ep.push(pos);
                                let bw0 = ew.push(l);
                                assert(fresh_untracked_unemitted(
                                    cw0,
                                    wb,
                                    hb,
                                    g,
                                    bp0,
                                    bw0,
                                    words,
                                    out@,
                                )) by {
                                    assert forall|e2: Seq<u8>| #[trigger]
                                        reachable_word(cw0, wb, hb, g, bp0, bw0, e2)
                                            && !words.spec_get(
                                            lookup_word_id(cw0, e2)->0 as nat,
                                        ) implies !strings_contain(
                                        out@,
                                        decode_word(bw0 + e2),
                                    ) by {
                                        let e = seq![l] + e2;
                                        assert(reach_via(*root, wb, hb, g, ep, ew, e, pos));
                                        lemma_reach_via_weaken(*root, wb, hb, g, ep, ew, e, pos);
                                        assert(lookup_word_id(*root, e) == lookup_word_id(
                                            cw0,
                                            e2,
                                        ));
                                        let ide = lookup_word_id(*root, e)->0;
                                        let s1 = decode_word(e);
                                        assert(decode_word(bw0 + e2) == s1) by {
                                            assert(bw0 + e2 =~= e);
                                        }
                                        if strings_contain(out@, s1) {
                                            if exists|wd: Seq<u8>| #[trigger]
                                                is_found_word(*root, wb, hb, g, wd) && (
                                                wd[0] as u32) < l as u32 && s1 == decode_word(
                                                    wd,
                                                ) {
                                                let wd = choose|wd: Seq<u8>|
                                                    #[trigger] is_found_word(*root, wb, hb, g, wd)
                                                        && (wd[0] as u32) < l as u32 && s1
                                                        == decode_word(wd);
                                                assert(decode_word(ew + wd) == decode_word(
                                                    ew + e,
                                                )) by {
                                                    assert(ew + wd =~= wd);
                                                    assert(ew + e =~= e);
                                                }
                                                lemma_same_text_same_word(*root, ew, wd, e);
                                                assert(wd[0] == l);
                                            } else {
                                                let (e3, p3) = choose|e3: Seq<u8>, p3: usize|
                                                    done0c.contains(p3) && #[trigger] reach_via(
                                                        *root,
                                                        wb,
                                                        hb,
                                                        g,
                                                        ep,
                                                        ew,
                                                        e3,
                                                        p3,
                                                    ) && e3[0] == l && e3.len() >= 2 && s1
                                                        == decode_word(e3);
                                                assert(decode_word(ew + e3) == decode_word(
                                                    ew + e,
                                                )) by {
                                                    assert(ew + e3 =~= e3);
                                                    assert(ew + e =~= e);
                                                }
                                                lemma_same_text_same_word(*root, ew, e3, e);
                                                assert(lookup_word_id(*root, e3) == Some(ide));
                                                assert(words.spec_get(ide as nat));
                                            }
                                        }
                                    }
                                }
                            }
                            descend(child, board, &mut word, &mut path, &mut words, &mut out);
                            path.pop();
                            proof {
                                assert(path@ =~= ep);
                                let cw = *child;
                                let bp = ep.push(pos);
                                let bw = ew.push(l);
                                assert forall|e2: Seq<u8>| #[trigger]
                                    decode_word(bw + e2) == decode_word(seq![l] + e2) by {
                                    assert(bw + e2 =~= seq![l] + e2);
                                }
                                assert forall|e2: Seq<u8>| #[trigger]
                                    decode_word(ew + (seq![l] + e2)) == decode_word(
                                    seq![l] + e2,
                                ) by {
                                    assert(ew + (seq![l] + e2) =~= seq![l] + e2);
                                }
                                // the tracker after this seed cell
                                assert forall|id: usize| #[trigger]
                                    words.spec_get(id as nat) <==> (exists|wd: Seq<u8>|
                                        #[trigger] is_found_word(*root, wb, hb, g, wd) && (
                                        wd[0] as u32) < l as u32 && lookup_word_id(*root, wd)
                                            == Some(id)) || (exists|e: Seq<u8>, p: usize|
                                        cells@.take(m as int + 1).contains(p) && #[trigger] reach_via(
                                            *root,
                                            wb,
                                            hb,
                                            g,
                                            ep,
                                            ew,
                                            e,
                                            p,
                                        ) && e[0] == l && e.len() >= 2 && lookup_word_id(
                                            *root,
                                            e,
                                        ) == Some(id)) by {
                                    if words.spec_get(id as nat) && !words_pre.spec_get(
                                        id as nat,
                                    ) {
                                        let e2 = choose|e2: Seq<u8>|
                                            #[trigger] reachable_word(cw, wb, hb, g, bp, bw, e2)
                                                && lookup_word_id(cw, e2) == Some(id);
                                        let e = seq![l] + e2;
                                        assert(reach_via(*root, wb, hb, g, ep, ew, e, pos));
                                        assert(e[0] == l && e.len() >= 2);
                                        assert(lookup_word_id(*root, e) == Some(id));
                                        assert(cells@.take(m as int + 1).contains(pos)) by {
                                            assert(cells@.take(m as int + 1)[m as int] == pos);
                                        }
                                    }
                                    if exists|e: Seq<u8>, p: usize|
                                        cells@.take(m as int + 1).contains(p) && #[trigger] reach_via(
                                            *root,
                                            wb,
                                            hb,
                                            g,
                                            ep,
                                            ew,
                                            e,
                                            p,
                                        ) && e[0] == l && e.len() >= 2 && lookup_word_id(
                                        *root,
                                        e,
                                    ) == Some(id) {
                                        let (e, p) = choose|e: Seq<u8>, p: usize|
                                            cells@.take(m as int + 1).contains(p) && #[trigger] reach_via(
                                                *root,
                                                wb,
                                                hb,
                                                g,
                                                ep,
                                                ew,
                                                e,
                                                p,
                                            ) && e[0] == l && e.len() >= 2 && lookup_word_id(
                                                *root,
                                                e,
                                            ) == Some(id);
                                        if done0c.contains(p) {
                                            assert(words_pre.spec_get(id as nat));
                                        } else {
                                            assert(p == pos) by {
                                                let kk = choose|kk: int|
                                                    0 <= kk < cells@.take(m as int + 1).len()
                                                        && #[trigger] cells@.take(m as int + 1)[kk]
                                                        == p;
                                                if kk < m {
                                                    assert(done0c[kk] == p);
                                                }
                                            }
                                            lemma_head_tail(e, l);
                                            let e2 = e.drop_first();
                                            assert(reachable_word(cw, wb, hb, g, bp, bw, e2));
                                            assert(lookup_word_id(cw, e2) == Some(id));
                                            assert(words.spec_get(id as nat));
                                        }
                                    }
                                }
                                // the output after this seed cell
                                assert forall|s: Seq<char>| #[trigger]
                                    strings_contain(out@, s) <==> (exists|wd: Seq<u8>|
                                        #[trigger] is_found_word(*root, wb, hb, g, wd) && (
                                        wd[0] as u32) < l as u32 && s == decode_word(wd)) || (
                                    exists|e: Seq<u8>, p: usize|
                                        cells@.take(m as int + 1).contains(p) && #[trigger] reach_via(
                                            *root,
                                            wb,
                                            hb,
                                            g,
                                            ep,
                                            ew,
                                            e,
                                            p,
                                        ) && e[0] == l && e.len() >= 2 && s == decode_word(
                                            e,
                                        )) by {
                                    if strings_contain(out@, s) && !strings_contain(out_pre, s) {
                                        let e2 = choose|e2: Seq<u8>|
                                            #[trigger] reachable_word(cw, wb, hb, g, bp, bw, e2)
                                                && s == decode_word(bw + e2)
                                                && !words_pre.spec_get(
                                                lookup_word_id(cw, e2)->0 as nat,
                                            );
                                        let e = seq![l] + e2;
                                        assert(reach_via(*root, wb, hb, g, ep, ew, e, pos));
                                        assert(e[0] == l && e.len() >= 2);
                                        assert(s == decode_word(e));
                                        assert(cells@.take(m as int + 1).contains(pos)) by {
                                            assert(cells@.take(m as int + 1)[m as int] == pos);
                                        }
                                    }
                                    if exists|e: Seq<u8>, p: usize|
                                        cells@.take(m as int + 1).contains(p) && #[trigger] reach_via(
                                            *root,
                                            wb,
                                            hb,
                                            g,
                                            ep,
                                            ew,
                                            e,
                                            p,
                                        ) && e[0] == l && e.len() >= 2 && s == decode_word(e) {
                                        let (e, p) = choose|e: Seq<u8>, p: usize|
                                            cells@.take(m as int + 1).contains(p) && #[trigger] reach_via(
                                                *root,
                                                wb,
                                                hb,
                                                g,
                                                ep,
                                                ew,
                                                e,
                                                p,
                                            ) && e[0] == l && e.len() >= 2 && s == decode_word(e);
                                        if done0c.contains(p) {
                                            assert(strings_contain(out_pre, s));
                                            assert(strings_contain(out@, s));
                                        } else {
                                            assert(p == pos) by {
                                                let kk = choose|kk: int|
                                                    0 <= kk < cells@.take(m as int + 1).len()
                                                        && #[trigger] cells@.take(m as int + 1)[kk]
                                                        == p;
                                                if kk < m {
                                                    assert(done0c[kk] == p);
                                                }
                                            }
                                            lemma_head_tail(e, l);
                                            let e2 = e.drop_first();
                                            assert(reachable_word(cw, wb, hb, g, bp, bw, e2));
                                            let ide = lookup_word_id(*root, e)->0;
                                            assert(lookup_word_id(cw, e2) == Some(ide));
                                            if !words_pre.spec_get(ide as nat) {
                                                assert(s == decode_word(bw + e2));
                                                assert(strings_contain(out@, s));
                                            } else {
                                                // the id was already tracked: the same word
                                                // was reached through an earlier seed cell,
                                                // and its text is already in the output
                                                let (e3, p3) = choose|e3: Seq<u8>, p3: usize|
                                                    done0c.contains(p3) && #[trigger] reach_via(
                                                        *root,
                                                        wb,
                                                        hb,
                                                        g,
                                                        ep,
                                                        ew,
                                                        e3,
                                                        p3,
                                                    ) && e3[0] == l && e3.len() >= 2
                                                        && lookup_word_id(*root, e3) == Some(ide);
                                                assert(e3 == e) by {
                                                    if e3 != e {
                                                        assert(lookup_word_id(*root, e3)
                                                            != lookup_word_id(*root, e));
                                                    }
                                                }
                                                assert(strings_contain(out_pre, s));
                                                assert(strings_contain(out@, s));
                                            }
                                        }
                                    }
                                }
                            }
                        }
                        m = m + 1;
                    }
                }
                word.pop();
                proof {
                    assert(word@ =~= ew);
                }
            },
        }
    }
    out
}


/// The found-word set is a function of the trie and the grid alone: any
/// two outputs that each hold exactly the texts of the found words hold
/// the same texts.  In particular the eager walks over the two board
/// representations of one grid emit equal sets of words.
pub proof fn lemma_found_words_determined(
    t: Trie,
    w: int,
    h: int,
    g: Seq<Option<u8>>,
    out1: Seq<String>,
    out2: Seq<String>,
)
    requires
        forall|s: Seq<char>| #[trigger]
            strings_contain(out1, s) <==> (exists|wd: Seq<u8>| #[trigger]
                is_found_word(t, w, h, g, wd) && s == decode_word(wd)),
        forall|s: Seq<char>| #[trigger]
            strings_contain(out2, s) <==> (exists|wd: Seq<u8>| #[trigger]
                is_found_word(t, w, h, g, wd) && s == decode_word(wd)),
    ensures
        forall|s: Seq<char>| #[trigger] strings_contain(out1, s) <==> strings_contain(out2, s),
{
}


} // verus!
