//! The lazy, pull-based form of the search: an explicit stack of frames,
//! each pairing a trie-iteration cursor with the frontier of board
//! positions consistent with the current prefix, yields one decoded word
//! per pull.
//!
//! Every yielded text names a dictionary word of the trie the iterator
//! was built over that is traceable as a simple path on the board.

use vstd::prelude::*;
use crate::bitset::BitSet;
use crate::grid::letter_neighbors;
use crate::radix_board::RadixBoggleBoard;
use crate::search::decode_word;
use crate::search::findable;
use crate::search::lookup_word_id;
use crate::search::path_ok;
use crate::search::strings_contain;
use crate::search::copy_letters;
use crate::search::idx_vec_to_string;
use crate::search::lemma_concat_inj;
use crate::search::lemma_path_extend;
use crate::search::lemma_path_junction;
use crate::search::lemma_simple_path_bound;
use crate::trie::NodeType;
use crate::trie::Trie;
use crate::trie::TrieIterator;

verus! {

/// The trie node reached from `t` along path `p`.
pub open spec fn node_at(t: Trie, p: Seq<u8>) -> Option<Trie>
    decreases p.len(),
{
    if p.len() == 0 {
        Some(t)
    } else if p[0] < 26 && t.children@.len() == 26 && t.children@[p[0] as int] is Some {
        node_at(*t.children@[p[0] as int]->0, p.drop_first())
    } else {
        None
    }
}

/// Stepping one letter deeper moves `node_at` to the child.
proof fn lemma_node_at_snoc(t: Trie, p: Seq<u8>, n: Trie, l: u8)
    requires
        node_at(t, p) == Some(n),
        n.children@.len() == 26,
        l < 26,
        n.children@[l as int] is Some,
    ensures
        node_at(t, p.push(l)) == Some(*n.children@[l as int]->0),
    decreases p.len(),
{
    if p.len() == 0 {
        assert(p.push(l)[0] == l);
        assert(p.push(l).drop_first() =~= Seq::<u8>::empty());
        assert(t == n);
        assert(node_at(*n.children@[l as int]->0, Seq::<u8>::empty()) == Some(
            *n.children@[l as int]->0,
        ));
    } else {
        assert(p.push(l)[0] == p[0]);
        assert(p.push(l).drop_first() =~= p.drop_first().push(l));
        lemma_node_at_snoc(*t.children@[p[0] as int]->0, p.drop_first(), n, l);
        assert(node_at(t, p.push(l)) == node_at(
            *t.children@[p[0] as int]->0,
            p.drop_first().push(l),
        ));
    }
}

/// The classification of a path is its node's own classification.
proof fn lemma_node_at_lookup(t: Trie, p: Seq<u8>, n: Trie)
    requires
        node_at(t, p) == Some(n),
    ensures
        t.lookup(p) == Some(n.node_type),
    decreases p.len(),
{
    if p.len() > 0 {
        lemma_node_at_lookup(*t.children@[p[0] as int]->0, p.drop_first(), n);
    }
}

/// A sequence holds a value exactly when its last element is that value
/// or its prefix holds it.
proof fn lemma_contains_split(q: Seq<usize>, c: usize)
    requires
        q.len() >= 1,
    ensures
        q.contains(c) <==> (c == q[q.len() - 1] || q.take(q.len() - 1).contains(c)),
{
    if q.contains(c) {
        let k = choose|k: int| 0 <= k < q.len() && q[k] == c;
        if k < q.len() - 1 {
            assert(q.take(q.len() - 1)[k] == c);
        }
    }
    if q.take(q.len() - 1).contains(c) {
        let k = choose|k: int|
            0 <= k < q.take(q.len() - 1).len() && #[trigger] q.take(q.len() - 1)[k] == c;
        assert(q[k] == c);
    }
}

/// One board position of a frontier, with the set of cells the path that
/// reached it has already used.
pub struct BFSNode {
    pub pos: usize,
    pub ancestors: BitSet,
}

/// `bn` records the end of some simple path spelling `prefix`: its
/// ancestors are exactly the earlier cells of that path.
#[verifier::opaque]
pub open spec fn node_ok(
    w: int,
    h: int,
    g: Seq<Option<u8>>,
    prefix: Seq<u8>,
    bn: BFSNode,
) -> bool {
    &&& bn.ancestors.wf()
    &&& (exists|q: Seq<usize>|
        #[trigger] path_ok(w, h, g, q, prefix) && q.len() >= 1 && q[q.len() - 1] == bn.pos && (
        forall|c: usize| bn.ancestors.spec_get(c as nat) <==> q.take(q.len() - 1).contains(c)))
}

/// One frame of the explicit search stack: a cursor over the children of
/// the trie node for the current prefix, and the frontier of positions
/// consistent with that prefix.
pub struct Element<'a> {
    pub iter: TrieIterator<'a>,
    pub frontier: Vec<BFSNode>,
}

/// The frame for `prefix`: its cursor walks the node `prefix` reaches,
/// and every frontier entry realizes `prefix`; the root frame (and only
/// it) has an empty frontier.
pub open spec fn frame_ok(
    root: Trie,
    w: int,
    h: int,
    g: Seq<Option<u8>>,
    prefix: Seq<u8>,
    el: Element<'_>,
) -> bool {
    &&& el.iter.wf()
    &&& node_at(root, prefix) == Some(*el.iter.trie)
    &&& (prefix.len() == 0 <==> el.frontier@.len() == 0)
    &&& (forall|n: int| 0 <= n < el.frontier@.len() ==> node_ok(w, h, g, prefix, #[trigger] el.frontier@[n]))
}

/// `wd` still lies ahead of the walk: some frame's cursor has not yet
/// passed the letter `wd` continues with at that frame's depth.
#[verifier::opaque]
pub open spec fn ahead(frames: Seq<Element<'_>>, word: Seq<u8>, wd: Seq<u8>) -> bool {
    exists|j: int, e: Seq<u8>|
        0 <= j < frames.len() && e.len() >= 1 && wd == word.take(j) + e && (e[0] as u32)
            >= frames[j].iter.iter.i
}


/// A dictionary word of the trie that can be traced as a simple path on
/// the board: what one full lazy walk must deliver.
#[verifier::opaque]
pub open spec fn lazy_found(root: Trie, w: int, h: int, g: Seq<Option<u8>>, wd: Seq<u8>) -> bool {
    wd.len() >= 1 && lookup_word_id(root, wd) is Some && findable(w, h, g, wd)
}

/// The frontier entry stands for the path `q`: it ends on the entry's
/// cell, and the entry's ancestors are exactly its earlier cells.
pub open spec fn entry_covers(bn: BFSNode, q: Seq<usize>) -> bool {
    &&& q.len() >= 1
    &&& bn.pos == q[q.len() - 1]
    &&& (forall|c: usize| bn.ancestors.spec_get(c as nat) <==> q.take(q.len() - 1).contains(c))
}

/// Some frontier entry stands for the path `q`.
#[verifier::opaque]
pub open spec fn covered(fr: Seq<BFSNode>, q: Seq<usize>) -> bool {
    exists|n: int| 0 <= n < fr.len() && entry_covers(#[trigger] fr[n], q)
}

/// The frontier drops nothing: every simple path spelling the (nonempty)
/// prefix has an entry standing for it.
#[verifier::opaque]
pub open spec fn frame_complete(
    w: int,
    h: int,
    g: Seq<Option<u8>>,
    prefix: Seq<u8>,
    el: Element<'_>,
) -> bool {
    forall|q: Seq<usize>|
        #[trigger] path_ok(w, h, g, q, prefix) && prefix.len() >= 1 ==> covered(el.frontier@, q)
}

/// Growing a frontier keeps everything it already stood for.
proof fn lemma_covered_push(fr: Seq<BFSNode>, bn: BFSNode)
    ensures
        forall|q: Seq<usize>| #[trigger] covered(fr, q) ==> covered(fr.push(bn), q),
{
    assert forall|q: Seq<usize>| #[trigger] covered(fr, q) implies covered(fr.push(bn), q) by {
        reveal(covered);
        let n = choose|n: int| 0 <= n < fr.len() && entry_covers(#[trigger] fr[n], q);
        assert(fr.push(bn)[n] == fr[n]);
        assert(entry_covers(fr.push(bn)[n], q));
    }
}

/// Looking deeper from a reached node is looking up the joined path.
proof fn lemma_node_at_lookup_extend(t: Trie, p: Seq<u8>, n: Trie, e: Seq<u8>)
    requires
        node_at(t, p) == Some(n),
    ensures
        t.lookup(p + e) == n.lookup(e),
    decreases p.len(),
{
    if p.len() == 0 {
        assert(p + e =~= e);
        assert(t == n);
    } else {
        assert((p + e).len() >= 1);
        assert((p + e)[0] == p[0]);
        assert((p + e).drop_first() =~= p.drop_first() + e);
        lemma_node_at_lookup_extend(*t.children@[p[0] as int]->0, p.drop_first(), n, e);
    }
}

/// Simple paths are closed under taking a front part.
proof fn lemma_path_ok_take(
    w: int,
    h: int,
    g: Seq<Option<u8>>,
    q: Seq<usize>,
    wd: Seq<u8>,
    k: int,
)
    requires
        path_ok(w, h, g, q, wd),
        0 <= k <= q.len(),
    ensures
        path_ok(w, h, g, q.take(k), wd.take(k)),
{
    let qt = q.take(k);
    let wt = wd.take(k);
    assert forall|i: int| 0 <= i < qt.len() implies (#[trigger] qt[i]) < w * h && g[qt[i] as int]
        == Some(wt[i]) by {
        assert(qt[i] == q[i] && wt[i] == wd[i]);
    }
    assert forall|i: int|
        1 <= i < qt.len() implies crate::grid::adjacent(
        w,
        h,
        qt[i - 1] as int,
        (#[trigger] qt[i]) as int,
    ) by {
        assert(qt[i - 1] == q[i - 1] && qt[i] == q[i]);
    }
    assert forall|i1: int, i2: int|
        #![trigger qt[i1], qt[i2]]
        0 <= i1 < i2 < qt.len() implies qt[i1] != qt[i2] by {
        assert(qt[i1] == q[i1] && qt[i2] == q[i2]);
    }
}

/// A word of the dictionary continues only through an existing child of
/// the node its known prefix reaches.
proof fn lemma_found_needs_child(root: Trie, prefix: Seq<u8>, n: Trie, e: Seq<u8>)
    requires
        n.wf(),
        node_at(root, prefix) == Some(n),
        e.len() >= 1,
        lookup_word_id(root, prefix + e) is Some,
    ensures
        e[0] < 26,
        n.children@[e[0] as int] is Some,
        n.child_set.spec_get(e[0] as u32),
{
    lemma_node_at_lookup_extend(root, prefix, n, e);
    assert(root.lookup(prefix + e) is Some);
    assert(n.lookup(e) is Some);
    if e[0] >= 26 || !(n.children@[e[0] as int] is Some) {
        assert(n.lookup(e) is None);
    }
}

/// The pull-based search iterator.
pub struct DictBasedIterator<'a> {
    pub board: &'a RadixBoggleBoard,
    pub state: Vec<Element<'a>>,
    pub word: Vec<u8>,
    pub root: Ghost<Trie>,
    pub yielded: Ghost<Set<Seq<u8>>>,
}

/// Powers of 34, the weight base of the termination measure.
spec fn pow34(d: nat) -> nat
    decreases d,
{
    if d == 0 {
        1
    } else {
        34 * pow34((d - 1) as nat)
    }
}

proof fn lemma_pow34_pos(d: nat)
    ensures
        pow34(d) >= 1,
    decreases d,
{
    if d > 0 {
        lemma_pow34_pos((d - 1) as nat);
    }
}

/// The remaining letters of one frame, weighted by its depth.
spec fn frame_weight(el: Element<'_>, d: int) -> nat {
    ((33 - el.iter.iter.i) * pow34(if d >= 0 {
        d as nat
    } else {
        0
    })) as nat
}

/// The termination measure of a stack whose first frame sits at weight
/// exponent `d`.
spec fn stack_measure(s: Seq<Element<'_>>, d: int) -> nat
    decreases s.len(),
{
    if s.len() == 0 {
        0
    } else {
        (frame_weight(s[0], d) + stack_measure(s.drop_first(), d - 1)) as nat
    }
}

/// Pushing a frame adds its weight at the next exponent.
proof fn lemma_measure_push(s: Seq<Element<'_>>, el: Element<'_>, d: int)
    ensures
        stack_measure(s.push(el), d) == stack_measure(s, d) + frame_weight(el, d - s.len()),
    decreases s.len(),
{
    if s.len() == 0 {
        assert(s.push(el)[0] == el);
        assert(s.push(el).drop_first() =~= Seq::<Element<'_>>::empty());
        assert(stack_measure(s, d) == 0);
        assert(stack_measure(Seq::<Element<'_>>::empty(), d - 1) == 0);
        assert(stack_measure(s.push(el), d) == frame_weight(el, d) + 0);
    } else {
        assert(s.push(el)[0] == s[0]);
        assert(s.push(el).drop_first() =~= s.drop_first().push(el));
        lemma_measure_push(s.drop_first(), el, d - 1);
    }
}


/// A found word continues only below the cursor of a frame whose
/// remaining letters bear no children.
proof fn lemma_exhausted_frame_case(
    root: Trie,
    w: int,
    h: int,
    g: Seq<Option<u8>>,
    word_pre: Seq<u8>,
    n2: Trie,
    cursor: u32,
    wd: Seq<u8>,
    e: Seq<u8>,
)
    requires
        n2.wf(),
        node_at(root, word_pre) == Some(n2),
        forall|jj: u32| cursor <= jj < 26 ==> !(#[trigger] n2.child_set.spec_get(jj)),
        lazy_found(root, w, h, g, wd),
        wd == word_pre + e,
        e.len() >= 1,
    ensures
        (e[0] as u32) < cursor,
{
    reveal(lazy_found);
    lemma_found_needs_child(root, word_pre, n2, e);
    if (e[0] as u32) >= cursor {
        assert(!n2.child_set.spec_get(e[0] as u32));
    }
}

/// Where a found word sat ahead only through the head frame, one
/// expansion step accounts for it: its next letter cannot lie below the
/// letter just taken, a word ending exactly on the new prefix forces a
/// nonempty frontier, and a longer word re-decomposes past that prefix.
proof fn lemma_head_frame_case(
    root: Trie,
    w: int,
    h: int,
    g: Seq<Option<u8>>,
    word_pre: Seq<u8>,
    n2: Trie,
    cursor: u32,
    letter: u8,
    next_frontier: Seq<BFSNode>,
    wd: Seq<u8>,
    e: Seq<u8>,
)
    requires
        n2.wf(),
        node_at(root, word_pre) == Some(n2),
        cursor <= letter < 26,
        forall|jj: u32| cursor <= jj < letter ==> !(#[trigger] n2.child_set.spec_get(jj)),
        forall|qq: Seq<usize>| #[trigger]
            path_ok(w, h, g, qq, word_pre.push(letter)) ==> covered(next_frontier, qq),
        lazy_found(root, w, h, g, wd),
        wd == word_pre + e,
        e.len() >= 1,
        (e[0] as u32) >= cursor,
    ensures
        e[0] >= letter,
        e[0] == letter && e.len() == 1 ==> wd == word_pre.push(letter),
        e[0] == letter && e.len() >= 2 ==> wd == word_pre.push(letter) + e.drop_first(),
        e[0] == letter ==> next_frontier.len() >= 1,
{
    reveal(lazy_found);
    lemma_found_needs_child(root, word_pre, n2, e);
    if (e[0] as u32) < letter as u32 {
        assert(!n2.child_set.spec_get(e[0] as u32));
        assert(false);
    }
    if e[0] == letter {
        let prefix2 = word_pre.push(letter);
        let qq_full = choose|q: Seq<usize>| path_ok(w, h, g, q, wd);
        lemma_path_ok_take(w, h, g, qq_full, wd, word_pre.len() as int + 1);
        assert(wd.take(word_pre.len() as int + 1) =~= prefix2);
        assert(path_ok(w, h, g, qq_full.take(word_pre.len() as int + 1), prefix2));
        assert(covered(next_frontier, qq_full.take(word_pre.len() as int + 1)));
        assert(next_frontier.len() >= 1) by {
            reveal(covered);
            let nn = choose|nn: int|
                0 <= nn < next_frontier.len() && entry_covers(
                    #[trigger] next_frontier[nn],
                    qq_full.take(word_pre.len() as int + 1),
                );
        }
        if e.len() == 1 {
            assert(wd =~= prefix2);
        } else {
            assert(e =~= seq![letter] + e.drop_first());
            assert(word_pre + (seq![letter] + e.drop_first()) =~= prefix2 + e.drop_first());
        }
    }
}

/// Builds the frontier for the prefix extended by one letter: every entry
/// realizes the longer prefix by a simple path, and every simple path
/// spelling the longer prefix has an entry standing for it.  The empty
/// frontier is the root frame's: its extensions are seeded from every
/// cell holding the letter.
#[verifier::rlimit(100)]
#[verifier::spinoff_prover]
fn next_frontier_for(
    board: &RadixBoggleBoard,
    frontier: &Vec<BFSNode>,
    letter: u8,
    Ghost(word_pre): Ghost<Seq<u8>>,
) -> (r: Vec<BFSNode>)
    requires
        board.wf(),
        letter < 26,
        (word_pre.len() == 0 <==> frontier@.len() == 0),
        forall|k: int| 0 <= k < word_pre.len() ==> #[trigger] word_pre[k] < 26,
        forall|m: int|
            0 <= m < frontier@.len() ==> node_ok(
                board.width as int,
                board.height as int,
                board.grid@,
                word_pre,
                #[trigger] frontier@[m],
            ),
        forall|q: Seq<usize>| #[trigger]
            path_ok(board.width as int, board.height as int, board.grid@, q, word_pre)
                && word_pre.len() >= 1 ==> covered(frontier@, q),
    ensures
        forall|m: int|
            0 <= m < r@.len() ==> node_ok(
                board.width as int,
                board.height as int,
                board.grid@,
                word_pre.push(letter),
                #[trigger] r@[m],
            ),
        forall|qq: Seq<usize>| #[trigger]
            path_ok(
                board.width as int,
                board.height as int,
                board.grid@,
                qq,
                word_pre.push(letter),
            ) ==> covered(r@, qq),
{
    let ghost wb = board.width as int;
    let ghost hb = board.height as int;
    let ghost g = board.grid@;
    let ghost prefix2 = word_pre.push(letter);
    let mut next_frontier: Vec<BFSNode> = Vec::new();
    if frontier.len() == 0 {
        // root frame: seed from the cells holding the letter
        let mut cells = board.any(letter);
        loop
            invariant_except_break
                cells.wf(),
                *cells.bitset == board.alpha@[letter as int],
                board.wf(),
                wb == board.width as int,
                hb == board.height as int,
                g == board.grid@,
                letter < 26,
                prefix2 == word_pre.push(letter),
                word_pre.len() == 0,
                forall|n: int|
                    0 <= n < next_frontier@.len() ==> node_ok(
                        wb,
                        hb,
                        g,
                        prefix2,
                        #[trigger] next_frontier@[n],
                    ),
                forall|x: usize|
                    #[trigger] board.alpha@[letter as int].spec_get(
                        x as nat,
                    ) && (x as int) < cells.pos() ==> covered(
                        next_frontier@,
                        seq![x],
                    ),
            ensures
                forall|n: int|
                    0 <= n < next_frontier@.len() ==> node_ok(
                        wb,
                        hb,
                        g,
                        prefix2,
                        #[trigger] next_frontier@[n],
                    ),
                forall|x: usize|
                    x < wb * hb && g[x as int] == Some(letter) ==> covered(
                        next_frontier@,
                        #[trigger] seq![x],
                    ),
            decreases 64 * board.alpha@[letter as int].data@.len() + 1
                - cells.pos(),
        {
            match cells.next() {
                None => {
                    proof {
                        assert forall|x: usize|
                            x < wb * hb && g[x as int] == Some(
                            letter,
                        ) implies covered(
                            next_frontier@,
                            #[trigger] seq![x],
                        ) by {
                            assert(board.alpha@[
                            letter as int].spec_get(x as nat));
                        }
                    }
                    break ;
                },
                Some(pos) => {
                    let bn = BFSNode { pos, ancestors: BitSet::new() };
                    proof {
                        reveal(node_ok);
                        assert(board.alpha@[letter as int].spec_get(
                            pos as nat,
                        ));
                        assert(g[pos as int] == Some(letter));
                        let q = seq![pos];
                        assert(prefix2 =~= seq![letter]);
                        assert(q[0] == pos && prefix2[0] == letter);
                        assert(path_ok(wb, hb, g, q, prefix2));
                        assert(q[q.len() - 1] == pos);
                        assert(q.take(0) =~= Seq::<usize>::empty());
                        assert(forall|c: usize|
                            bn.ancestors.spec_get(c as nat)
                                <==> q.take(q.len() - 1).contains(c));
                        assert(node_ok(wb, hb, g, prefix2, bn));
                        lemma_covered_push(next_frontier@, bn);
                        assert(entry_covers(bn, seq![pos]));
                    }
                    next_frontier.push(bn);
                    proof {
                        assert(covered(next_frontier@, seq![pos])) by {
                            reveal(covered);
                            assert(next_frontier@[next_frontier@.len() - 1]
                                == bn);
                        }
                        assert forall|x: usize|
                            #[trigger] board.alpha@[
                        letter as int].spec_get(x as nat) && (x as int)
                            < cells.pos() implies covered(
                            next_frontier@,
                            seq![x],
                        ) by {
                            if x != pos {
                                assert((x as int) < pos as int);
                            }
                        }
                    }
                },
            }
        }
    } else {
        // expand every frontier entry by its matching neighbors
        let flen = frontier.len();
        let mut n: usize = 0;
        while n < flen
            invariant
                n <= flen,
                flen == frontier@.len(),
                board.wf(),
                wb == board.width as int,
                hb == board.height as int,
                g == board.grid@,
                letter < 26,
                prefix2 == word_pre.push(letter),
                word_pre.len() >= 1,
                forall|k: int|
                    0 <= k < word_pre.len() ==> #[trigger] word_pre[k]
                        < 26,
                forall|m: int|
                    0 <= m < frontier@.len() ==> node_ok(
                        wb,
                        hb,
                        g,
                        word_pre,
                        #[trigger] frontier@[m],
                    ),
                forall|m: int|
                    0 <= m < next_frontier@.len() ==> node_ok(
                        wb,
                        hb,
                        g,
                        prefix2,
                        #[trigger] next_frontier@[m],
                    ),
                forall|m: int, q2: Seq<usize>, x: usize|
                    #![trigger frontier@[m], q2.push(x)]
                    0 <= m < n && entry_covers(frontier@[m], q2)
                        && path_ok(wb, hb, g, q2, word_pre)
                        && letter_neighbors(
                        wb,
                        hb,
                        g,
                        frontier@[m].pos as int,
                        letter,
                    ).contains(x) && !q2.contains(x) ==> covered(
                        next_frontier@,
                        q2.push(x),
                    ),
            decreases flen - n,
        {
            let bnpos = frontier[n].pos;
            proof {
                reveal(node_ok);
            }
            let ghost q0 = choose|q: Seq<usize>|
                #[trigger] path_ok(wb, hb, g, q, word_pre) && q.len() >= 1
                    && q[q.len() - 1] == bnpos && (forall|c: usize|
                    frontier@[n as int].ancestors.spec_get(c as nat)
                        <==> q.take(q.len() - 1).contains(c));
            proof {
                assert(node_ok(wb, hb, g, word_pre, frontier@[
                n as int]));
                assert(bnpos < wb * hb) by {
                    assert(q0[q0.len() - 1] < wb * hb);
                }
            }
            let mut nbrs = board.neighbors(bnpos, letter);
            let ghost mut done: Seq<usize> = Seq::empty();
            proof {
                assert(done + nbrs.remaining() =~= letter_neighbors(
                    wb,
                    hb,
                    g,
                    bnpos as int,
                    letter,
                ));
            }
            loop
                invariant_except_break
                    nbrs.wf(),
                    nbrs.grid@ == g,
                    nbrs.letter@ == letter,
                    nbrs.width == board.width,
                    nbrs.height@ == hb,
                    nbrs.idx == bnpos,
                    done + nbrs.remaining() == letter_neighbors(
                        wb,
                        hb,
                        g,
                        bnpos as int,
                        letter,
                    ),
                    bnpos == frontier@[n as int].pos,
                    n < flen,
                    flen == frontier@.len(),
                    board.wf(),
                    wb == board.width as int,
                    hb == board.height as int,
                    g == board.grid@,
                    letter < 26,
                    prefix2 == word_pre.push(letter),
                    word_pre.len() >= 1,
                    forall|k: int|
                        0 <= k < word_pre.len() ==> #[trigger] word_pre[k]
                            < 26,
                    path_ok(wb, hb, g, q0, word_pre),
                    q0.len() >= 1,
                    q0[q0.len() - 1] == bnpos,
                    forall|c: usize|
                        frontier@[n as int].ancestors.spec_get(c as nat)
                            <==> q0.take(q0.len() - 1).contains(c),
                    forall|m: int|
                        0 <= m < frontier@.len() ==> node_ok(
                            wb,
                            hb,
                            g,
                            word_pre,
                            #[trigger] frontier@[m],
                        ),
                    forall|m: int|
                        0 <= m < next_frontier@.len() ==> node_ok(
                            wb,
                            hb,
                            g,
                            prefix2,
                            #[trigger] next_frontier@[m],
                        ),
                    forall|m: int, q2: Seq<usize>, x: usize|
                        #![trigger frontier@[m], q2.push(x)]
                        0 <= m < n && entry_covers(frontier@[m], q2)
                            && path_ok(wb, hb, g, q2, word_pre)
                            && letter_neighbors(
                            wb,
                            hb,
                            g,
                            frontier@[m].pos as int,
                            letter,
                        ).contains(x) && !q2.contains(x) ==> covered(
                            next_frontier@,
                            q2.push(x),
                        ),
                    forall|q2: Seq<usize>, x: usize|
                        #![trigger q2.push(x)]
                        entry_covers(frontier@[n as int], q2)
                            && path_ok(wb, hb, g, q2, word_pre)
                            && done.contains(x) && !q2.contains(x)
                            ==> covered(next_frontier@, q2.push(x)),
                ensures
                    forall|m: int|
                        0 <= m < next_frontier@.len() ==> node_ok(
                            wb,
                            hb,
                            g,
                            prefix2,
                            #[trigger] next_frontier@[m],
                        ),
                    forall|m: int, q2: Seq<usize>, x: usize|
                        #![trigger frontier@[m], q2.push(x)]
                        0 <= m < n + 1 && entry_covers(frontier@[m], q2)
                            && path_ok(wb, hb, g, q2, word_pre)
                            && letter_neighbors(
                            wb,
                            hb,
                            g,
                            frontier@[m].pos as int,
                            letter,
                        ).contains(x) && !q2.contains(x) ==> covered(
                            next_frontier@,
                            q2.push(x),
                        ),
                decreases nbrs.remaining().len(),
            {
                let ghost done0n = done;
                match nbrs.next() {
                    None => {
                        proof {
                            assert(done =~= letter_neighbors(
                                wb,
                                hb,
                                g,
                                bnpos as int,
                                letter,
                            ));
                            assert forall|m: int, q2: Seq<usize>, x: usize|
                                #![trigger frontier@[m], q2.push(x)]
                                0 <= m < n + 1 && entry_covers(
                                    frontier@[m],
                                    q2,
                                ) && path_ok(wb, hb, g, q2, word_pre)
                                    && letter_neighbors(
                                    wb,
                                    hb,
                                    g,
                                    frontier@[m].pos as int,
                                    letter,
                                ).contains(x) && !q2.contains(
                                    x,
                                ) implies covered(
                                next_frontier@,
                                q2.push(x),
                            ) by {
                                if m == n {
                                    assert(done.contains(x));
                                }
                            }
                        }
                        break ;
                    },
                    Some(pos) => {
                        proof {
                            done = done + seq![pos];
                            assert(done0n + (seq![pos] + nbrs.remaining())
                                =~= done + nbrs.remaining());
                        }
                        if !frontier[n].ancestors.get(pos) {
                            let mut a = frontier[n].ancestors.clone();
                            let ghost a0 = a;
                            proof {
                                reveal(node_ok);
                                assert(node_ok(
                                    wb,
                                    hb,
                                    g,
                                    word_pre,
                                    frontier@[n as int],
                                ));
                                assert(a.wf()) by {
                                    assert(frontier@[
                                    n as int].ancestors.wf());
                                    assert(a.data@ == frontier@[
                                    n as int].ancestors.data@);
                                    assert(a.len == frontier@[
                                    n as int].ancestors.len);
                                    assert forall|i: nat|
                                        i >= a.len implies !(
                                    #[trigger] a.spec_get(i)) by {
                                        assert(a.spec_get(i)
                                            == frontier@[
                                        n as int].ancestors.spec_get(i));
                                    }
                                    assert(a.len > 0 ==> a.spec_get(
                                        (a.len - 1) as nat,
                                    )) by {
                                        if a.len > 0 {
                                            assert(a.spec_get((a.len - 1) as nat)
                                                == frontier@[
                                            n as int].ancestors.spec_get(
                                                (a.len - 1) as nat,
                                            ));
                                        }
                                    }
                                    assert(!a.spec_get(usize::MAX as nat)) by {
                                        assert(a.spec_get(usize::MAX as nat)
                                            == frontier@[
                                        n as int].ancestors.spec_get(
                                            usize::MAX as nat,
                                        ));
                                    }
                                }
                                lemma_contains_split(q0, pos);
                                assert(!q0.contains(pos)) by {
                                    crate::grid::lemma_adjacent_symmetric(
                                        wb,
                                        hb,
                                        bnpos as int,
                                        pos as int,
                                    );
                                    assert(pos != bnpos);
                                }
                                lemma_path_extend(
                                    wb,
                                    hb,
                                    g,
                                    q0,
                                    word_pre,
                                    pos,
                                    letter,
                                );
                                assert(pos < wb * hb);
                                assert(wb * hb <= usize::MAX);
                                assert(bnpos < usize::MAX);
                            }
                            a.add(bnpos);
                            let bn = BFSNode { pos, ancestors: a };
                            proof {
                                let q2 = q0.push(pos);
                                assert(path_ok(wb, hb, g, q2, prefix2));
                                assert(q2[q2.len() - 1] == pos);
                                assert(q2.take(q2.len() - 1) =~= q0);
                                assert forall|c: usize|
                                    bn.ancestors.spec_get(c as nat)
                                        <==> q2.take(q2.len() - 1).contains(
                                        c,
                                    ) by {
                                    lemma_contains_split(q0, c);
                                    assert(a0.spec_get(c as nat)
                                        == frontier@[
                                    n as int].ancestors.spec_get(c as nat));
                                    if c as nat == bnpos as nat {
                                        assert(bn.ancestors.spec_get(
                                            c as nat,
                                        ));
                                        assert(q0.contains(c)) by {
                                            assert(q0[q0.len() - 1] == c);
                                        }
                                    } else {
                                        assert(bn.ancestors.spec_get(c as nat)
                                            == a0.spec_get(c as nat));
                                    }
                                }
                                assert(node_ok(wb, hb, g, prefix2, bn));
                                lemma_covered_push(next_frontier@, bn);
                            }
                            next_frontier.push(bn);
                            proof {
                                assert(next_frontier@[next_frontier@.len()
                                    - 1] == bn);
                                // the new entry stands for every covered
                                // path of the old entry, extended by this
                                // neighbor
                                assert forall|q3: Seq<usize>, x: usize|
                                    #![trigger q3.push(x)]
                                    entry_covers(
                                        frontier@[n as int],
                                        q3,
                                    ) && path_ok(wb, hb, g, q3, word_pre)
                                        && done.contains(x) && !q3.contains(
                                        x,
                                    ) implies covered(
                                    next_frontier@,
                                    q3.push(x),
                                ) by {
                                    if done0n.contains(x) {
                                        assert(covered(
                                            next_frontier@,
                                            q3.push(x),
                                        ));
                                    } else {
                                        assert(x == pos) by {
                                            let kk = choose|kk: int|
                                                0 <= kk < done.len()
                                                    && done[kk] == x;
                                            if kk < done0n.len() {
                                                assert(done0n[kk] == x);
                                            }
                                        }
                                        assert(entry_covers(
                                            bn,
                                            q3.push(pos),
                                        )) by {
                                            assert(q3.len() >= 1);
                                            assert(q3[q3.len() - 1] == bnpos);
                                            assert(q3.push(pos)[q3.len() as int]
                                                == pos);
                                            assert(q3.push(pos).take(
                                                q3.len() as int,
                                            ) =~= q3);
                                            assert forall|c: usize|
                                                bn.ancestors.spec_get(
                                                    c as nat,
                                                ) <==> q3.push(pos).take(
                                                q3.push(pos).len() - 1,
                                            ).contains(c) by {
                                                lemma_contains_split(q3, c);
                                                assert(a0.spec_get(c as nat)
                                                    == frontier@[
                                                n as int].ancestors.spec_get(
                                                    c as nat,
                                                ));
                                                if c as nat == bnpos as nat {
                                                    assert(
                                                    bn.ancestors.spec_get(
                                                        c as nat,
                                                    ));
                                                    assert(q3.contains(c)) by {
                                                        assert(q3[q3.len()
                                                            - 1] == c);
                                                    }
                                                } else {
                                                    assert(
                                                    bn.ancestors.spec_get(
                                                        c as nat,
                                                    ) == a0.spec_get(
                                                        c as nat,
                                                    ));
                                                }
                                            }
                                        }
                                        assert(covered(
                                            next_frontier@,
                                            q3.push(x),
                                        )) by {
                                            reveal(covered);
                                            assert(entry_covers(
                                                next_frontier@[
                                                next_frontier@.len() - 1],
                                                q3.push(x),
                                            ));
                                        }
                                    }
                                }
                            }
                        } else {
                            proof {
                                // a neighbor already on the path starts
                                // no new entry: no covered path admits it
                                assert forall|q3: Seq<usize>, x: usize|
                                    #![trigger q3.push(x)]
                                    entry_covers(
                                        frontier@[n as int],
                                        q3,
                                    ) && path_ok(wb, hb, g, q3, word_pre)
                                        && done.contains(x) && !q3.contains(
                                        x,
                                    ) implies covered(
                                    next_frontier@,
                                    q3.push(x),
                                ) by {
                                    if !done0n.contains(x) {
                                        assert(x == pos) by {
                                            let kk = choose|kk: int|
                                                0 <= kk < done.len()
                                                    && done[kk] == x;
                                            if kk < done0n.len() {
                                                assert(done0n[kk] == x);
                                            }
                                        }
                                        assert(frontier@[
                                        n as int].ancestors.spec_get(
                                            pos as nat,
                                        ));
                                        assert(q3.take(q3.len() - 1).contains(
                                            pos,
                                        ));
                                        lemma_contains_split(q3, pos);
                                        assert(q3.contains(pos));
                                        assert(false);
                                    }
                                }
                            }
                        }
                    },
                }
            }
            n = n + 1;
        }
    }
    proof {
        // every simple path spelling the longer prefix has an entry
        // in the frontier just built
        assert forall|qq: Seq<usize>| #[trigger]
            path_ok(wb, hb, g, qq, prefix2) implies covered(
            next_frontier@,
            qq,
        ) by {
            reveal(covered);
            reveal(frame_complete);
            let lw = word_pre.len() as int;
            assert(qq.len() == prefix2.len());
            assert(prefix2.len() == lw + 1);
            let q2 = qq.take(lw);
            let x = qq[lw];
            assert(qq =~= q2.push(x));
            lemma_path_ok_take(wb, hb, g, qq, prefix2, lw);
            assert(prefix2.take(lw) =~= word_pre);
            assert(path_ok(wb, hb, g, q2, word_pre));
            if lw == 0 {
                // seeded from every cell holding the letter
                assert(qq[0] < wb * hb && g[qq[0] as int] == Some(
                    prefix2[0],
                ));
                assert(prefix2[0] == letter) by {
                    assert(prefix2 =~= seq![letter]);
                }
                assert(covered(next_frontier@, seq![x]));
                assert(qq =~= seq![x]);
            } else {
                // the head frame holds an entry for the front part,
                // and the expansion extended it by this neighbor
                assert(qq =~= q2 + seq![x]);
                assert(word_pre + seq![letter] =~= prefix2);
                lemma_path_junction(
                    wb,
                    hb,
                    g,
                    q2,
                    word_pre,
                    seq![x],
                    seq![letter],
                );
                assert(covered(frontier@, q2));
                let m = choose|m: int|
                    0 <= m < frontier@.len() && entry_covers(
                        #[trigger] frontier@[m],
                        q2,
                    );
                assert(frontier@[m].pos == q2[q2.len() - 1]);
                assert(q2[q2.len() - 1] < wb * hb);
                crate::grid::lemma_letter_neighbors_exact(
                    wb,
                    hb,
                    g,
                    frontier@[m].pos as int,
                    letter,
                );
                assert(letter_neighbors(
                    wb,
                    hb,
                    g,
                    frontier@[m].pos as int,
                    letter,
                ).contains(x));
                assert(!q2.contains(x));
                assert(covered(next_frontier@, q2.push(x)));
            }
        }
    }
    next_frontier
}


/// One expansion step that pushes the advanced head and a fresh frame for
/// the longer prefix keeps every found word accounted for: it is yielded,
/// or still ahead of some cursor of the new stack.
proof fn lemma_push_step(
    root: Trie,
    w: int,
    h: int,
    g: Seq<Option<u8>>,
    state_pre: Seq<Element<'_>>,
    word_pre: Seq<u8>,
    head0: Element<'_>,
    head_adv: Element<'_>,
    top: Element<'_>,
    letter: u8,
    next_frontier: Seq<BFSNode>,
    yielded0: Set<Seq<u8>>,
    yielded1: Set<Seq<u8>>,
    frames1: Seq<Element<'_>>,
    word1: Seq<u8>,
    prefix_ends_word: bool,
)
    requires
        word1 == word_pre.push(letter),
        frames1 == state_pre.push(head_adv).push(top),
        state_pre.len() == word_pre.len(),
        head_adv.iter.iter.i == letter + 1,
        top.iter.iter.i == 0,
        head0.iter.iter.i <= letter < 26,
        node_at(root, word_pre) == Some(*head0.iter.trie),
        (*head0.iter.trie).wf(),
        forall|jj: u32|
            head0.iter.iter.i <= jj < letter ==> !(#[trigger] (
            *head0.iter.trie).child_set.spec_get(jj)),
        forall|qq: Seq<usize>| #[trigger]
            path_ok(w, h, g, qq, word1) ==> covered(next_frontier, qq),
        prefix_ends_word ==> yielded1 == yielded0.insert(word1),
        !prefix_ends_word ==> yielded1 == yielded0 && lookup_word_id(root, word1) is None,
        forall|wd: Seq<u8>| #[trigger]
            lazy_found(root, w, h, g, wd) ==> yielded0.contains(wd) || ahead(
                state_pre.push(head0),
                word_pre,
                wd,
            ),
    ensures
        forall|wd: Seq<u8>| #[trigger]
            lazy_found(root, w, h, g, wd) ==> yielded1.contains(wd) || ahead(
                frames1,
                word1,
                wd,
            ),
{
    let n2 = *head0.iter.trie;
    assert forall|wd: Seq<u8>| #[trigger]
        lazy_found(root, w, h, g, wd) implies yielded1.contains(wd) || ahead(
        frames1,
        word1,
        wd,
    ) by {
        if !yielded1.contains(wd) {
            assert(!yielded0.contains(wd));
            assert(ahead(state_pre.push(head0), word_pre, wd));
            reveal(ahead);
            let (j, e) = choose|j: int, e: Seq<u8>|
                0 <= j < state_pre.push(head0).len() && e.len() >= 1 && wd == #[trigger] (
                word_pre.take(j) + e) && (e[0] as u32) >= state_pre.push(head0)[j].iter.iter.i;
            if j < state_pre.len() {
                assert(frames1[j] == state_pre[j]);
                assert(word1.take(j) =~= word_pre.take(j));
                assert(0 <= j < frames1.len() && e.len() >= 1 && wd == word1.take(j) + e && (
                e[0] as u32) >= frames1[j].iter.iter.i);
            } else {
                assert(state_pre.push(head0)[j] == head0);
                assert(word_pre.take(j) =~= word_pre);
                assert(wd == word_pre + e);
                lemma_head_frame_case(
                    root,
                    w,
                    h,
                    g,
                    word_pre,
                    n2,
                    head0.iter.iter.i,
                    letter,
                    next_frontier,
                    wd,
                    e,
                );
                if e[0] == letter {
                    if e.len() == 1 {
                        // the word is the new prefix itself
                        assert(wd == word1);
                        assert(prefix_ends_word) by {
                            if !prefix_ends_word {
                                reveal(lazy_found);
                            }
                        }
                        assert(yielded1.contains(wd));
                        assert(false);
                    } else {
                        // it continues below the fresh frame
                        let e2 = e.drop_first();
                        let jj = state_pre.len() + 1;
                        assert(frames1[jj as int] == top);
                        assert(word1.take(jj as int) =~= word1);
                        assert(wd == word1 + e2);
                        assert(0 <= jj < frames1.len() && e2.len() >= 1 && wd == word1.take(
                            jj as int,
                        ) + e2 && (e2[0] as u32) >= frames1[jj as int].iter.iter.i);
                    }
                } else {
                    // still ahead of the advanced cursor
                    let jj = state_pre.len() as int;
                    assert(frames1[jj] == head_adv);
                    assert(word1.take(jj) =~= word_pre);
                    assert(0 <= jj < frames1.len() && e.len() >= 1 && wd == word1.take(jj) + e
                        && (e[0] as u32) >= frames1[jj].iter.iter.i);
                }
            }
        }
    }
}

/// The same step never lets a yielded word slip back ahead of a cursor:
/// the stack cursors sit one past the letters they consumed.
proof fn lemma_push_step_no_repeat(
    state_pre: Seq<Element<'_>>,
    word_pre: Seq<u8>,
    head0: Element<'_>,
    head_adv: Element<'_>,
    top: Element<'_>,
    letter: u8,
    yielded0: Set<Seq<u8>>,
    yielded1: Set<Seq<u8>>,
    frames1: Seq<Element<'_>>,
    word1: Seq<u8>,
    prefix_ends_word: bool,
)
    requires
        word1 == word_pre.push(letter),
        frames1 == state_pre.push(head_adv).push(top),
        state_pre.len() == word_pre.len(),
        forall|j: int|
            0 <= j < state_pre.len() ==> (#[trigger] state_pre[j]).iter.iter.i == word_pre[j]
                + 1,
        head_adv.iter.iter.i == letter + 1,
        head0.iter.iter.i <= letter,
        prefix_ends_word ==> yielded1 == yielded0.insert(word1),
        !prefix_ends_word ==> yielded1 == yielded0,
        forall|wd: Seq<u8>|
            yielded0.contains(wd) ==> !(#[trigger] ahead(
                state_pre.push(head0),
                word_pre,
                wd,
            )),
    ensures
        forall|wd: Seq<u8>| yielded1.contains(wd) ==> !(#[trigger] ahead(frames1, word1, wd)),
{
    assert forall|wd: Seq<u8>| yielded1.contains(wd) implies !(#[trigger] ahead(
        frames1,
        word1,
        wd,
    )) by {
        reveal(ahead);
        if ahead(frames1, word1, wd) {
            let (j, e) = choose|j: int, e: Seq<u8>|
                0 <= j < frames1.len() && e.len() >= 1 && wd == #[trigger] (word1.take(j) + e)
                    && (e[0] as u32) >= frames1[j].iter.iter.i;
            if wd == word1 {
                // no frame cursor still admits the word just consumed
                assert(j <= word1.len());
                assert(word1.take(j) + word1.skip(j) =~= word1);
                lemma_concat_inj(word1.take(j), e, word1.skip(j));
                assert(e == word1.skip(j));
                assert(j < word1.len());
                assert(e[0] == word1[j]);
                if j < state_pre.len() {
                    assert(frames1[j] == state_pre[j]);
                    assert(frames1[j].iter.iter.i == word1[j] + 1);
                } else if j == state_pre.len() {
                    assert(frames1[j] == head_adv);
                    assert(word1[j] == letter);
                } else {
                    assert(j == word1.len());
                }
                assert(false);
            } else {
                assert(yielded0.contains(wd));
                assert(ahead(state_pre.push(head0), word_pre, wd)) by {
                    if j < state_pre.len() {
                        assert(frames1[j] == state_pre[j]);
                        assert(state_pre.push(head0)[j] == state_pre[j]);
                        assert(word1.take(j) =~= word_pre.take(j));
                        assert(0 <= j < state_pre.push(head0).len() && e.len() >= 1 && wd
                            == word_pre.take(j) + e && (e[0] as u32) >= state_pre.push(head0)[
                        j].iter.iter.i);
                    } else if j == state_pre.len() {
                        assert(frames1[j] == head_adv);
                        assert(state_pre.push(head0)[j] == head0);
                        assert(word1.take(j) =~= word_pre);
                        assert(word_pre.take(j) =~= word_pre);
                        assert(0 <= j < state_pre.push(head0).len() && e.len() >= 1 && wd
                            == word_pre.take(j) + e && (e[0] as u32) >= state_pre.push(head0)[
                        j].iter.iter.i);
                    } else {
                        assert(j == state_pre.len() + 1);
                        assert(word1.take(j) =~= word1);
                        let e2 = seq![letter] + e;
                        assert(wd == word_pre + e2) by {
                            assert(word_pre + e2 =~= word1 + e);
                            assert(wd == word1.take(j) + e);
                            assert(word1.take(j) + e =~= word1 + e);
                        }
                        assert(e2[0] == letter);
                        let jj = state_pre.len() as int;
                        assert(state_pre.push(head0)[jj] == head0);
                        assert(word_pre.take(jj) =~= word_pre);
                        assert(0 <= jj < state_pre.push(head0).len() && e2.len() >= 1 && wd
                            == word_pre.take(jj) + e2 && (e2[0] as u32) >= state_pre.push(
                            head0,
                        )[jj].iter.iter.i);
                    }
                }
            }
        }
    }
}

impl<'a> DictBasedIterator<'a> {
    /// The whole stack is coherent: frame `j` belongs to the prefix of
    /// the first `j` letters of the word buffer.
    pub open spec fn wf(&self) -> bool {
        &&& self.board.wf()
        &&& self.root@.wf()
        &&& (forall|k: int| 0 <= k < self.word@.len() ==> #[trigger] self.word@[k] < 26)
        &&& (self.state@.len() == 0 || self.state@.len() == self.word@.len() + 1)
        &&& (forall|j: int|
            0 <= j < self.state@.len() ==> frame_ok(
                self.root@,
                self.board.width as int,
                self.board.height as int,
                self.board.grid@,
                self.word@.take(j),
                #[trigger] self.state@[j],
            ))
        &&& (forall|j: int|
            0 <= j < self.state@.len() - 1 ==> (#[trigger] self.state@[j]).iter.iter.i
                == self.word@[j] + 1)
        &&& (forall|wd: Seq<u8>|
            self.yielded@.contains(wd) ==> !(#[trigger] ahead(self.state@, self.word@, wd)))
        &&& (forall|j: int|
            0 <= j < self.state@.len() ==> frame_complete(
                self.board.width as int,
                self.board.height as int,
                self.board.grid@,
                self.word@.take(j),
                #[trigger] self.state@[j],
            ))
        &&& (forall|wd: Seq<u8>| #[trigger]
            lazy_found(
                self.root@,
                self.board.width as int,
                self.board.height as int,
                self.board.grid@,
                wd,
            ) ==> self.yielded@.contains(wd) || ahead(self.state@, self.word@, wd))
        &&& (forall|wd: Seq<u8>| #[trigger]
            self.yielded@.contains(wd) ==> lazy_found(
                self.root@,
                self.board.width as int,
                self.board.height as int,
                self.board.grid@,
                wd,
            ))
    }

    pub fn new(trie: &'a Trie, board: &'a RadixBoggleBoard) -> (it: DictBasedIterator<'a>)
        requires
            trie.wf(),
            board.wf(),
        ensures
            it.wf(),
            it.root@ == *trie,
            it.board == board,
            it.yielded@ == Set::<Seq<u8>>::empty(),
            it.state@.len() == 1,
            it.word@.len() == 0,
            it.state@[0].iter.iter.i == 0,
    {
        let root_el = Element { iter: trie.iter(), frontier: Vec::new() };
        let mut state: Vec<Element<'a>> = Vec::new();
        state.push(root_el);
        let it = DictBasedIterator {
            board,
            state,
            word: Vec::new(),
            root: Ghost(*trie),
            yielded: Ghost(Set::empty()),
        };
        proof {
            assert(it.word@.take(0) =~= Seq::<u8>::empty());
            assert(node_at(it.root@, Seq::<u8>::empty()) == Some(*trie));
            assert(frame_complete(
                board.width as int,
                board.height as int,
                board.grid@,
                it.word@.take(0),
                it.state@[0],
            )) by {
                reveal(frame_complete);
            }
            // everything findable still lies ahead of the fresh walk
            assert forall|wd: Seq<u8>| #[trigger]
                lazy_found(
                    it.root@,
                    board.width as int,
                    board.height as int,
                    board.grid@,
                    wd,
                ) implies it.yielded@.contains(wd) || ahead(it.state@, it.word@, wd) by {
                reveal(ahead);
                reveal(lazy_found);
                assert(it.word@.take(0) + wd =~= wd);
                assert(0 <= 0 < it.state@.len() && wd.len() >= 1 && wd == it.word@.take(0) + wd
                    && (wd[0] as u32) >= it.state@[0].iter.iter.i);
            }
        }
        it
    }

    /// Pulls the next word: the text of some dictionary word of the trie
    /// that is traceable as a simple path on the board, or `None` once
    /// the walk is exhausted.
    #[verifier::rlimit(100)]
    pub fn next(&mut self) -> (r: Option<String>)
        requires
            old(self).wf(),
        ensures
            final(self).wf(),
            final(self).board == old(self).board,
            final(self).root == old(self).root,
            match r {
                Some(s) => exists|wd: Seq<u8>| #[trigger]
                    s@ == decode_word(wd) && wd.len() >= 1 && lookup_word_id(old(self).root@, wd)
                        is Some && findable(
                        old(self).board.width as int,
                        old(self).board.height as int,
                        old(self).board.grid@,
                        wd,
                    ) && !old(self).yielded@.contains(wd) && final(self).yielded@ == old(
                        self,
                    ).yielded@.insert(wd),
                None => final(self).yielded@ == old(self).yielded@,
            },
            old(self).state@.len() == 0 ==> r is None,
            r is None ==> final(self).state@.len() == 0,
            r is None ==> (forall|wd: Seq<u8>| #[trigger]
                lazy_found(
                    old(self).root@,
                    old(self).board.width as int,
                    old(self).board.height as int,
                    old(self).board.grid@,
                    wd,
                ) ==> final(self).yielded@.contains(wd)),
    {
        let ghost wb = self.board.width as int;
        let ghost hb = self.board.height as int;
        let ghost g = self.board.grid@;
        let ghost dmax = wb * hb + 2;
        let mut res: Option<String> = None;
        loop
            invariant_except_break
                self.wf(),
                self.board == old(self).board,
                self.root == old(self).root,
                self.yielded == old(self).yielded,
                res is None,
                old(self).state@.len() == 0 ==> self.state@.len() == 0,
                wb == self.board.width as int,
                hb == self.board.height as int,
                g == self.board.grid@,
                dmax == wb * hb + 2,
            ensures
                final(self).wf(),
                final(self).board == old(self).board,
                final(self).root == old(self).root,
                res is None ==> final(self).state@.len() == 0,
                res is Some ==> old(self).state@.len() > 0,
                match res {
                    Some(s) => exists|wd: Seq<u8>| #[trigger]
                        s@ == decode_word(wd) && wd.len() >= 1 && lookup_word_id(
                            old(self).root@,
                            wd,
                        ) is Some && findable(wb, hb, g, wd) && !old(self).yielded@.contains(wd)
                            && final(self).yielded@ == old(self).yielded@.insert(wd),
                    None => final(self).yielded@ == old(self).yielded@,
                },
            decreases stack_measure(self.state@, dmax),
        {
            let ghost state0 = self.state@;
            let popped = self.state.pop();
            let mut head = match popped {
                Some(h) => h,
                None => {
                    res = None;
                    break ;
                },
            };
            proof {
                assert(state0 == self.state@.push(head));
                lemma_measure_push(self.state@, head, dmax);
                assert(self.state@.len() == self.word@.len());
                assert(self.word@.take(self.word@.len() as int) =~= self.word@);
                assert(frame_ok(self.root@, wb, hb, g, self.word@, head));
                assert forall|j: int|
                    0 <= j < self.state@.len() implies (#[trigger] self.state@[j]).iter.iter.i
                    == self.word@[j] + 1 by {
                    assert(state0[j] == self.state@[j]);
                }
                assert forall|wd: Seq<u8>| self.yielded@.contains(wd) implies !(#[trigger] ahead(
                    self.state@.push(head),
                    self.word@,
                    wd,
                )) by {
                    assert(!ahead(state0, self.word@, wd));
                }
                assert forall|j: int|
                    0 <= j < self.state@.len() implies frame_complete(
                    wb,
                    hb,
                    g,
                    self.word@.take(j),
                    #[trigger] self.state@[j],
                ) by {
                    assert(state0[j] == self.state@[j]);
                }
                assert(frame_complete(wb, hb, g, self.word@, head)) by {
                    assert(state0[state0.len() - 1] == head);
                    assert(frame_complete(
                        wb,
                        hb,
                        g,
                        self.word@.take(self.word@.len() as int),
                        state0[state0.len() - 1],
                    ));
                }
                assert forall|wd: Seq<u8>| #[trigger]
                    lazy_found(self.root@, wb, hb, g, wd) implies self.yielded@.contains(wd)
                    || ahead(self.state@.push(head), self.word@, wd) by {
                    assert(self.yielded@.contains(wd) || ahead(state0, self.word@, wd));
                }
                if self.word@.len() > 0 {
                    reveal(node_ok);
                    assert(head.frontier@.len() >= 1);
                    assert(node_ok(wb, hb, g, self.word@, head.frontier@[0]));
                    let q = choose|q: Seq<usize>|
                        #[trigger] path_ok(wb, hb, g, q, self.word@) && q.len() >= 1 && q[q.len()
                            - 1] == head.frontier@[0].pos && (forall|c: usize|
                            head.frontier@[0].ancestors.spec_get(c as nat) <==> q.take(
                                q.len() - 1,
                            ).contains(c));
                    lemma_simple_path_bound(wb, hb, g, q, self.word@);
                }
            }
            let mut yielded = false;
            loop
                invariant_except_break
                    self.board == old(self).board,
                    self.root == old(self).root,
                    wb == self.board.width as int,
                    hb == self.board.height as int,
                    g == self.board.grid@,
                    dmax == wb * hb + 2,
                    self.board.wf(),
                    self.root@.wf(),
                    !yielded,
                    res is None,
                    self.yielded == old(self).yielded,
                    forall|k: int| 0 <= k < self.word@.len() ==> #[trigger] self.word@[k] < 26,
                    self.state@.len() == self.word@.len(),
                    forall|j: int|
                        0 <= j < self.state@.len() ==> frame_ok(
                            self.root@,
                            wb,
                            hb,
                            g,
                            self.word@.take(j),
                            #[trigger] self.state@[j],
                        ),
                    forall|j: int|
                        0 <= j < self.state@.len() ==> (#[trigger] self.state@[j]).iter.iter.i
                            == self.word@[j] + 1,
                    forall|wd: Seq<u8>|
                        self.yielded@.contains(wd) ==> !(#[trigger] ahead(
                            self.state@.push(head),
                            self.word@,
                            wd,
                        )),
                    forall|j: int|
                        0 <= j < self.state@.len() ==> frame_complete(
                            wb,
                            hb,
                            g,
                            self.word@.take(j),
                            #[trigger] self.state@[j],
                        ),
                    frame_complete(wb, hb, g, self.word@, head),
                    forall|wd: Seq<u8>| #[trigger]
                        lazy_found(self.root@, wb, hb, g, wd) ==> self.yielded@.contains(wd)
                            || ahead(self.state@.push(head), self.word@, wd),
                    forall|wd: Seq<u8>| #[trigger]
                        self.yielded@.contains(wd) ==> lazy_found(self.root@, wb, hb, g, wd),
                    frame_ok(self.root@, wb, hb, g, self.word@, head),
                    self.word@.len() <= wb * hb,
                    stack_measure(self.state@, dmax) + frame_weight(
                        head,
                        dmax - self.state@.len(),
                    ) <= stack_measure(state0, dmax),
                ensures
                    self.board == old(self).board,
                    self.root == old(self).root,
                    if yielded {
                        &&& self.wf()
                        &&& (match res {
                            Some(s) => exists|wd: Seq<u8>| #[trigger]
                                s@ == decode_word(wd) && wd.len() >= 1 && lookup_word_id(
                                    old(self).root@,
                                    wd,
                                ) is Some && findable(wb, hb, g, wd) && !old(
                                    self,
                                ).yielded@.contains(wd) && self.yielded@ == old(
                                    self,
                                ).yielded@.insert(wd),
                            None => false,
                        })
                    } else {
                        &&& self.wf()
                        &&& res is None
                        &&& self.yielded == old(self).yielded
                        &&& stack_measure(self.state@, dmax) < stack_measure(state0, dmax)
                    },
                decreases frame_weight(head, dmax - self.state@.len()),
            {
                let ghost head0 = head;
                let nx = head.iter.next();
                proof {
                    assert(head.iter.iter.i > head0.iter.iter.i || nx is None);
                }
                match nx {
                    None => {
                        // this frame is exhausted: drop it and back up
                        let ghost word_pre2 = self.word@;
                        let _ = self.word.pop();
                        proof {
                            if self.state@.len() > 0 {
                                assert(word_pre2.len() == self.state@.len());
                                assert(self.word@ =~= word_pre2.drop_last());
                                assert forall|j: int| 0 <= j < self.state@.len() implies frame_ok(
                                    self.root@,
                                    wb,
                                    hb,
                                    g,
                                    self.word@.take(j),
                                    #[trigger] self.state@[j],
                                ) by {
                                    assert(self.word@.take(j) =~= word_pre2.take(j));
                                }
                                assert(self.state@.len() == self.word@.len() + 1);
                            } else {
                                assert(self.state@.len() == 0);
                            }
                            assert forall|j: int|
                                0 <= j < self.state@.len() - 1 implies (
                            #[trigger] self.state@[j]).iter.iter.i == self.word@[j] + 1 by {
                                assert(self.word@[j] == word_pre2[j]);
                            }
                            assert forall|wd: Seq<u8>| self.yielded@.contains(wd) implies !(
                            #[trigger] ahead(self.state@, self.word@, wd)) by {
                                reveal(ahead);
                                if ahead(self.state@, self.word@, wd) {
                                    let (j, e) = choose|j: int, e: Seq<u8>|
                                        0 <= j < self.state@.len() && e.len() >= 1 && wd
                                            == #[trigger] (self.word@.take(j) + e) && (
                                        e[0] as u32) >= self.state@[j].iter.iter.i;
                                    assert(self.word@.take(j) =~= word_pre2.take(j));
                                    assert(self.state@.push(head0)[j] == self.state@[j]);
                                    assert(ahead(self.state@.push(head0), word_pre2, wd)) by {
                                        assert(0 <= j < self.state@.push(head0).len() && e.len()
                                            >= 1 && wd == word_pre2.take(j) + e && (e[0] as u32)
                                            >= self.state@.push(head0)[j].iter.iter.i);
                                    }
                                }
                            }
                            assert forall|j: int|
                                0 <= j < self.state@.len() implies frame_complete(
                                wb,
                                hb,
                                g,
                                self.word@.take(j),
                                #[trigger] self.state@[j],
                            ) by {
                                assert(self.word@.take(j) =~= word_pre2.take(j));
                            }
                            assert forall|wd: Seq<u8>| #[trigger]
                                lazy_found(self.root@, wb, hb, g, wd) implies self.yielded@.contains(
                                wd,
                            ) || ahead(self.state@, self.word@, wd) by {
                                if !self.yielded@.contains(wd) {
                                    reveal(lazy_found);
                                    assert(ahead(self.state@.push(head0), word_pre2, wd));
                                    reveal(ahead);
                                    let (j, e) = choose|j: int, e: Seq<u8>|
                                        0 <= j < self.state@.push(head0).len() && e.len() >= 1
                                            && wd == #[trigger] (word_pre2.take(j) + e) && (
                                        e[0] as u32) >= self.state@.push(head0)[j].iter.iter.i;
                                    if j < self.state@.len() {
                                        assert(self.state@.push(head0)[j] == self.state@[j]);
                                        assert(word_pre2.take(j) =~= self.word@.take(j));
                                        assert(0 <= j < self.state@.len() && e.len() >= 1 && wd
                                            == self.word@.take(j) + e && (e[0] as u32)
                                            >= self.state@[j].iter.iter.i);
                                    } else {
                                        // the dropped frame's cursor is past every remaining
                                        // child, so no word of the dictionary continues there
                                        assert(j == self.state@.len());
                                        assert(self.state@.push(head0)[j] == head0);
                                        assert(word_pre2.take(j) =~= word_pre2);
                                        assert(wd == word_pre2 + e);
                                        let n2 = *head0.iter.trie;
                                        assert(node_at(self.root@, word_pre2) == Some(n2));
                                        assert(n2.wf());
                                        lemma_exhausted_frame_case(
                                            self.root@,
                                            wb,
                                            hb,
                                            g,
                                            word_pre2,
                                            n2,
                                            head0.iter.iter.i,
                                            wd,
                                            e,
                                        );
                                        assert(false);
                                    }
                                }
                            }
                            lemma_pow34_pos((if dmax - self.state@.len() >= 0 {
                                (dmax - self.state@.len()) as nat
                            } else {
                                0
                            }));
                            assert(head0.iter.iter.i <= 32);
                            assert(frame_weight(head0, dmax - self.state@.len()) >= 1)
                                by (nonlinear_arith)
                                requires
                                    head0.iter.iter.i <= 32,
                                    frame_weight(head0, dmax - self.state@.len()) == ((33
                                        - head0.iter.iter.i) * pow34(
                                        if dmax - self.state@.len() >= 0 {
                                            (dmax - self.state@.len()) as nat
                                        } else {
                                            0
                                        },
                                    )) as nat,
                                    pow34(
                                        if dmax - self.state@.len() >= 0 {
                                            (dmax - self.state@.len()) as nat
                                        } else {
                                            0
                                        },
                                    ) >= 1,
                            ;
                        }
                        break ;
                    },
                    Some((child, letter)) => {
                        // build the next frontier for this child letter
                        let ghost prefix2 = self.word@.push(letter);
                        proof {
                            assert(forall|q: Seq<usize>| #[trigger]
                                path_ok(wb, hb, g, q, self.word@) && self.word@.len() >= 1
                                    ==> covered(head.frontier@, q)) by {
                                reveal(frame_complete);
                            }
                        }
                        let next_frontier = next_frontier_for(
                            self.board,
                            &head.frontier,
                            letter,
                            Ghost(self.word@),
                        );
                        if next_frontier.len() > 0 {
                            proof {
                                reveal(node_ok);
                                assert(node_ok(wb, hb, g, prefix2, next_frontier@[0]));
                                let q = choose|q: Seq<usize>|
                                    #[trigger] path_ok(wb, hb, g, q, prefix2) && q.len() >= 1
                                        && q[q.len() - 1] == next_frontier@[0].pos && (forall|
                                        c: usize,
                                    |
                                        next_frontier@[0].ancestors.spec_get(c as nat)
                                            <==> q.take(q.len() - 1).contains(c));
                                lemma_simple_path_bound(wb, hb, g, q, prefix2);
                                assert(prefix2.len() <= wb * hb);
                                // the trie node for the extended prefix is the child
                                assert(self.word@.take(self.word@.len() as int) =~= self.word@);
                                lemma_node_at_snoc(
                                    self.root@,
                                    self.word@,
                                    *head.iter.trie,
                                    letter,
                                );
                                assert(node_at(self.root@, prefix2) == Some(*child));
                            }
                            let ghost head_adv = head;
                            let ghost state_pre = self.state@;
                            let ghost word_pre = self.word@;
                            self.state.push(head);
                            self.word.push(letter);
                            proof {
                                lemma_measure_push(state_pre, head_adv, dmax);
                                assert(self.word@ =~= prefix2);
                                assert(self.word@ == word_pre.push(letter));
                                assert forall|j: int|
                                    0 <= j < self.state@.len() implies frame_ok(
                                    self.root@,
                                    wb,
                                    hb,
                                    g,
                                    self.word@.take(j),
                                    #[trigger] self.state@[j],
                                ) by {
                                    if j < self.state@.len() - 1 {
                                        assert(self.state@[j] == state_pre[j]);
                                        assert(frame_ok(
                                            self.root@,
                                            wb,
                                            hb,
                                            g,
                                            word_pre.take(j),
                                            state_pre[j],
                                        ));
                                        assert(self.word@.take(j) =~= word_pre.take(j));
                                    } else {
                                        assert(self.state@[j] == head_adv);
                                        assert(self.word@.take(j) =~= word_pre);
                                        assert(frame_ok(self.root@, wb, hb, g, word_pre, head_adv));
                                    }
                                }
                            }
                            let next_el = Element { iter: child.iter(), frontier: next_frontier };
                            let is_word = match child.node_type() {
                                NodeType::Word(_) => true,
                                _ => false,
                            };
                            if is_word {
                                proof {
                                    assert(self.word@ =~= prefix2);
                                    lemma_node_at_lookup(self.root@, prefix2, *child);
                                    assert(lookup_word_id(self.root@, prefix2) is Some);
                                    assert(findable(wb, hb, g, prefix2)) by {
                                        reveal(node_ok);
                                        assert(node_ok(wb, hb, g, prefix2, next_el.frontier@[0]));
                                    }
                                }
                                let s = idx_vec_to_string(copy_letters(&self.word));
                                self.state.push(next_el);
                                let ghost yset0 = self.yielded@;
                                proof {
                                    assert(self.state@.len() == self.word@.len() + 1);
                                    assert forall|j: int|
                                        0 <= j < self.state@.len() implies frame_ok(
                                        self.root@,
                                        wb,
                                        hb,
                                        g,
                                        self.word@.take(j),
                                        #[trigger] self.state@[j],
                                    ) by {
                                        if j == self.state@.len() - 1 {
                                            assert(self.state@[j] == next_el);
                                            assert(self.word@.take(j) =~= prefix2);
                                        }
                                    }
                                    // this word has not been yielded before: it still
                                    // lay ahead of the walk when the pull began
                                    let wdw = self.word@;
                                    assert(ahead(state_pre.push(head0), word_pre, wdw)) by {
                                        reveal(ahead);
                                        let jj = state_pre.len() as int;
                                        let e0 = seq![letter];
                                        assert(state_pre.push(head0)[jj] == head0);
                                        assert(word_pre.take(jj) =~= word_pre);
                                        assert(wdw == word_pre.take(jj) + e0) by {
                                            assert(word_pre.take(jj) + e0 =~= word_pre.push(
                                                letter,
                                            ));
                                        }
                                        assert(e0[0] == letter);
                                        assert(head0.iter.iter.i <= letter);
                                        assert(0 <= jj < state_pre.push(head0).len() && e0.len()
                                            >= 1 && wdw == word_pre.take(jj) + e0 && (
                                        e0[0] as u32) >= state_pre.push(head0)[jj].iter.iter.i);
                                    }
                                    assert(!self.yielded@.contains(wdw));
                                    assert(lazy_found(self.root@, wb, hb, g, wdw)) by {
                                        reveal(lazy_found);
                                    }
                                    assert(yset0 == self.yielded@);
                                    self.yielded = Ghost(self.yielded@.insert(wdw));
                                    // the stack cursors have passed every yielded word
                                    assert forall|j: int|
                                        0 <= j < self.state@.len() - 1 implies (
                                    #[trigger] self.state@[j]).iter.iter.i == self.word@[j]
                                        + 1 by {
                                        if j < state_pre.len() {
                                            assert(self.state@[j] == state_pre[j]);
                                            assert(self.word@[j] == word_pre[j]);
                                        } else {
                                            assert(self.state@[j] == head_adv);
                                            assert(self.word@[j] == letter);
                                            assert(head_adv.iter.iter.i == letter + 1);
                                        }
                                    }
                                    lemma_push_step_no_repeat(
                                        state_pre,
                                        word_pre,
                                        head0,
                                        head_adv,
                                        next_el,
                                        letter,
                                        yset0,
                                        self.yielded@,
                                        self.state@,
                                        self.word@,
                                        true,
                                    );
                                }
                                proof {
                                    // completeness: the stack still leads to everything
                                    // found and not yet yielded
                                    assert forall|j: int|
                                        0 <= j < self.state@.len() implies frame_complete(
                                        wb,
                                        hb,
                                        g,
                                        self.word@.take(j),
                                        #[trigger] self.state@[j],
                                    ) by {
                                        if j < state_pre.len() {
                                            assert(self.state@[j] == state_pre[j]);
                                            assert(self.word@.take(j) =~= word_pre.take(j));
                                        } else if j == state_pre.len() {
                                            assert(self.state@[j] == head_adv);
                                            assert(self.word@.take(j) =~= word_pre);
                                            assert(frame_complete(wb, hb, g, word_pre, head_adv))
                                                by {
                                                reveal(frame_complete);
                                                assert(head_adv.frontier == head0.frontier);
                                            }
                                        } else {
                                            assert(self.state@[j] == next_el);
                                            assert(self.word@.take(j) =~= prefix2);
                                            assert(frame_complete(wb, hb, g, prefix2, next_el))
                                                by {
                                                reveal(frame_complete);
                                                assert(next_el.frontier@ == next_frontier@);
                                            }
                                        }
                                    }
                                    lemma_push_step(
                                        self.root@,
                                        wb,
                                        hb,
                                        g,
                                        state_pre,
                                        word_pre,
                                        head0,
                                        head_adv,
                                        next_el,
                                        letter,
                                        next_frontier@,
                                        yset0,
                                        self.yielded@,
                                        self.state@,
                                        self.word@,
                                        true,
                                    );
                                }
                                res = Some(s);
                                yielded = true;
                                break ;
                            } else {
                                head = next_el;
                                proof {
                                    assert(frame_ok(self.root@, wb, hb, g, self.word@, head)) by {
                                        assert(self.word@ =~= prefix2);
                                    }
                                    assert forall|j: int|
                                        0 <= j < self.state@.len() implies frame_complete(
                                        wb,
                                        hb,
                                        g,
                                        self.word@.take(j),
                                        #[trigger] self.state@[j],
                                    ) by {
                                        if j < self.state@.len() - 1 {
                                            assert(self.state@[j] == state_pre[j]);
                                            assert(self.word@.take(j) =~= word_pre.take(j));
                                        } else {
                                            assert(self.state@[j] == head_adv);
                                            assert(self.word@.take(j) =~= word_pre);
                                            assert(frame_complete(wb, hb, g, word_pre, head_adv))
                                                by {
                                                reveal(frame_complete);
                                                assert(head_adv.frontier == head0.frontier);
                                            }
                                        }
                                    }
                                    assert(frame_complete(wb, hb, g, self.word@, head)) by {
                                        reveal(frame_complete);
                                        assert(head.frontier@ == next_frontier@);
                                        assert(self.word@ =~= prefix2);
                                    }
                                    assert(lookup_word_id(self.root@, prefix2) is None)
                                        by {
                                        lemma_node_at_lookup(self.root@, prefix2, *child);
                                    }
                                    lemma_push_step(
                                        self.root@,
                                        wb,
                                        hb,
                                        g,
                                        state_pre,
                                        word_pre,
                                        head0,
                                        head_adv,
                                        head,
                                        letter,
                                        next_frontier@,
                                        self.yielded@,
                                        self.yielded@,
                                        self.state@.push(head),
                                        self.word@,
                                        false,
                                    );
                                    lemma_push_step_no_repeat(
                                        state_pre,
                                        word_pre,
                                        head0,
                                        head_adv,
                                        head,
                                        letter,
                                        self.yielded@,
                                        self.yielded@,
                                        self.state@.push(head),
                                        self.word@,
                                        false,
                                    );
                                    assert forall|j: int|
                                        0 <= j < self.state@.len() implies (
                                    #[trigger] self.state@[j]).iter.iter.i == self.word@[j]
                                        + 1 by {
                                        if j < state_pre.len() {
                                            assert(self.state@[j] == state_pre[j]);
                                            assert(self.word@[j] == word_pre[j]);
                                        } else {
                                            assert(self.state@[j] == head_adv);
                                            assert(self.word@[j] == letter);
                                        }
                                    }
                                    // the measure strictly shrinks: one letter was
                                    // consumed above, and the new frame weighs less
                                    // than that step
                                    lemma_pow34_pos((dmax - self.state@.len()) as nat);
                                    assert(head0.iter.iter.i < head_adv.iter.iter.i);
                                    assert(dmax - state_pre.len() - 1 >= 1) by {
                                        assert(state_pre.len() + 2 <= wb * hb + 1);
                                    }
                                    assert(pow34((dmax - state_pre.len()) as nat) == 34 * pow34(
                                        (dmax - state_pre.len() - 1) as nat,
                                    ));
                                    assert(frame_weight(head_adv, dmax - state_pre.len())
                                        + frame_weight(head, dmax - self.state@.len())
                                        < frame_weight(head0, dmax - state_pre.len()))
                                        by (nonlinear_arith)
                                        requires
                                            head0.iter.iter.i < head_adv.iter.iter.i <= 33,
                                            head.iter.iter.i <= 33,
                                            0 <= head0.iter.iter.i,
                                            frame_weight(head_adv, dmax - state_pre.len()) == (33
                                                - head_adv.iter.iter.i) * pow34(
                                                (dmax - state_pre.len()) as nat,
                                            ),
                                            frame_weight(head0, dmax - state_pre.len()) == (33
                                                - head0.iter.iter.i) * pow34(
                                                (dmax - state_pre.len()) as nat,
                                            ),
                                            frame_weight(head, dmax - self.state@.len()) == (33
                                                - head.iter.iter.i) * pow34(
                                                (dmax - self.state@.len()) as nat,
                                            ),
                                            dmax - self.state@.len() == dmax - state_pre.len()
                                                - 1,
                                            dmax - state_pre.len() - 1 >= 0,
                                            pow34((dmax - state_pre.len()) as nat) == 34 * pow34(
                                                (dmax - state_pre.len() - 1) as nat,
                                            ),
                                            pow34((dmax - state_pre.len() - 1) as nat) >= 1,
                                    ;
                                }
                            }
                        } else {
                            // the branch dies: the cursor advanced, the stack is as it was
                            proof {
                                assert forall|wd: Seq<u8>| self.yielded@.contains(wd) implies !(
                                #[trigger] ahead(self.state@.push(head), self.word@, wd)) by {
                                    reveal(ahead);
                                    if ahead(self.state@.push(head), self.word@, wd) {
                                        let (j, e) = choose|j: int, e: Seq<u8>|
                                            0 <= j < self.state@.push(head).len() && e.len() >= 1
                                                && wd == #[trigger] (self.word@.take(j) + e)
                                                && (e[0] as u32) >= self.state@.push(head)[
                                            j].iter.iter.i;
                                        assert(ahead(self.state@.push(head0), self.word@, wd)) by {
                                            if j < self.state@.len() {
                                                assert(self.state@.push(head0)[j]
                                                    == self.state@.push(head)[j]);
                                            } else {
                                                assert(self.state@.push(head)[j] == head);
                                                assert(self.state@.push(head0)[j] == head0);
                                                assert(head0.iter.iter.i <= head.iter.iter.i);
                                            }
                                            assert(0 <= j < self.state@.push(head0).len()
                                                && e.len() >= 1 && wd == self.word@.take(j) + e
                                                && (e[0] as u32) >= self.state@.push(head0)[
                                            j].iter.iter.i);
                                        }
                                    }
                                }
                                assert(frame_complete(wb, hb, g, self.word@, head)) by {
                                    reveal(frame_complete);
                                    assert(head.frontier == head0.frontier);
                                }
                                assert(frame_ok(self.root@, wb, hb, g, self.word@, head));
                                assert forall|wd: Seq<u8>| #[trigger]
                                    lazy_found(self.root@, wb, hb, g, wd) implies self.yielded@.contains(
                                    wd,
                                ) || ahead(self.state@.push(head), self.word@, wd) by {
                                    if !self.yielded@.contains(wd) {
                                        reveal(lazy_found);
                                        reveal(covered);
                                        assert(ahead(self.state@.push(head0), self.word@, wd));
                                        reveal(ahead);
                                        let (j, e) = choose|j: int, e: Seq<u8>|
                                            0 <= j < self.state@.push(head0).len() && e.len() >= 1
                                                && wd == #[trigger] (self.word@.take(j) + e)
                                                && (e[0] as u32) >= self.state@.push(head0)[
                                            j].iter.iter.i;
                                        if j < self.state@.len() {
                                            assert(self.state@.push(head)[j] == self.state@.push(
                                                head0,
                                            )[j]);
                                            assert(0 <= j < self.state@.push(head).len()
                                                && e.len() >= 1 && wd == self.word@.take(j) + e
                                                && (e[0] as u32) >= self.state@.push(head)[
                                            j].iter.iter.i);
                                        } else {
                                            // the head frame: the letter the cursor passed
                                            assert(self.state@.push(head0)[j] == head0);
                                            assert(self.word@.take(j) =~= self.word@);
                                            assert(wd == self.word@ + e);
                                            let n2 = *head0.iter.trie;
                                            assert(node_at(self.root@, self.word@) == Some(n2));
                                            assert(n2.wf());
                                            lemma_head_frame_case(
                                                self.root@,
                                                wb,
                                                hb,
                                                g,
                                                self.word@,
                                                n2,
                                                head0.iter.iter.i,
                                                letter,
                                                next_frontier@,
                                                wd,
                                                e,
                                            );
                                            if e[0] == letter {
                                                // the branch died, yet a path would spell the
                                                // longer prefix: impossible
                                                assert(next_frontier@.len() >= 1);
                                                assert(false);
                                            } else {
                                                // still ahead of the advanced cursor
                                                assert(head.iter.iter.i == letter + 1);
                                                assert(self.state@.push(head)[j] == head);
                                                assert(0 <= j < self.state@.push(head).len()
                                                    && e.len() >= 1 && wd == self.word@.take(j)
                                                    + e && (e[0] as u32) >= self.state@.push(
                                                    head,
                                                )[j].iter.iter.i);
                                            }
                                        }
                                    }
                                }
                                let d0 = dmax - self.state@.len();
                                lemma_pow34_pos(
                                    if d0 >= 0 {
                                        d0 as nat
                                    } else {
                                        0
                                    },
                                );
                                assert(frame_weight(head, d0) < frame_weight(head0, d0))
                                    by (nonlinear_arith)
                                    requires
                                        head0.iter.iter.i < head.iter.iter.i <= 33,
                                        0 <= head0.iter.iter.i,
                                        frame_weight(head, d0) == ((33 - head.iter.iter.i) * pow34(
                                            if d0 >= 0 {
                                                d0 as nat
                                            } else {
                                                0
                                            },
                                        )) as nat,
                                        frame_weight(head0, d0) == ((33 - head0.iter.iter.i)
                                            * pow34(
                                            if d0 >= 0 {
                                                d0 as nat
                                            } else {
                                                0
                                            },
                                        )) as nat,
                                        pow34(
                                            if d0 >= 0 {
                                                d0 as nat
                                            } else {
                                                0
                                            },
                                        ) >= 1,
                                ;
                            }
                        }
                    },
                }
            }
            if yielded {
                break ;
            }
        }
        proof {
            if res is None {
                assert forall|wd: Seq<u8>| #[trigger]
                    lazy_found(old(self).root@, wb, hb, g, wd) implies self.yielded@.contains(
                    wd,
                ) by {
                    if !self.yielded@.contains(wd) {
                        assert(ahead(self.state@, self.word@, wd));
                        reveal(ahead);
                        let (j, e) = choose|j: int, e: Seq<u8>|
                            0 <= j < self.state@.len() && e.len() >= 1 && wd == #[trigger] (
                            self.word@.take(j) + e) && (e[0] as u32)
                                >= self.state@[j].iter.iter.i;
                        assert(false);
                    }
                }
            }
        }
        res
    }
}

/// The eager and lazy search forms agree.  A lazy walk run to exhaustion
/// has yielded exactly the traceable dictionary words, and the eager
/// output holds exactly the texts of those of two or more letters, so the
/// two forms report the same words — except one-letter dictionary words,
/// which only the lazy form reports.
pub proof fn lemma_eager_lazy_agree(
    t: Trie,
    w: int,
    h: int,
    g: Seq<Option<u8>>,
    yielded: Set<Seq<u8>>,
    out: Seq<String>,
)
    requires
        forall|wd: Seq<u8>| #[trigger] yielded.contains(wd) <==> lazy_found(t, w, h, g, wd),
        forall|s: Seq<char>| #[trigger]
            strings_contain(out, s) <==> (exists|wd: Seq<u8>| #[trigger]
                crate::search::is_found_word(t, w, h, g, wd) && s == decode_word(wd)),
    ensures
        forall|wd: Seq<u8>|
            #[trigger] yielded.contains(wd) && wd.len() >= 2 ==> strings_contain(
                out,
                decode_word(wd),
            ),
        forall|s: Seq<char>| #[trigger]
            strings_contain(out, s) ==> (exists|wd: Seq<u8>|
                #[trigger] yielded.contains(wd) && wd.len() >= 2 && s == decode_word(wd)),
{
    reveal(lazy_found);
    assert forall|wd: Seq<u8>|
        #[trigger] yielded.contains(wd) && wd.len() >= 2 implies strings_contain(
        out,
        decode_word(wd),
    ) by {
        assert(lazy_found(t, w, h, g, wd));
        assert(crate::search::is_found_word(t, w, h, g, wd));
    }
    assert forall|s: Seq<char>| #[trigger] strings_contain(out, s) implies (exists|wd: Seq<u8>|
        #[trigger] yielded.contains(wd) && wd.len() >= 2 && s == decode_word(wd)) by {
        let wd = choose|wd: Seq<u8>|
            #[trigger] crate::search::is_found_word(t, w, h, g, wd) && s == decode_word(wd);
        assert(lazy_found(t, w, h, g, wd));
        assert(yielded.contains(wd));
    }
}

} // verus!
