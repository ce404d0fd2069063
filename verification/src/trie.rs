//! A 26-ary prefix trie over lowercase letters.
//!
//! Each node owns up to one child per letter, mirrors which slots are
//! present in a fixed 32-wide bit set for skip-empty iteration, and carries
//! a classification: an interior prefix, or the end of a dictionary word
//! with its id.

use vstd::prelude::*;
use crate::bitset_32::BitSet32;
use crate::bitset_32::IndexIter32;
use crate::letters::all_letters;
use crate::letters::word_letters;
use crate::letters::word_to_letters;

verus! {

/// Classification of a trie node.
#[derive(Copy, Clone, Debug, PartialEq, Eq, Structural)]
pub enum NodeType {
    Prefix,
    Word(usize),
}

/// One trie node; the root represents the empty prefix.
#[derive(Debug)]
pub struct Trie {
    pub node_type: NodeType,
    pub children: Vec<Option<Box<Trie>>>,
    pub child_set: BitSet32,
}

/// `p` is a prefix of `u` and shorter than it.
pub open spec fn strict_prefix_of(p: Seq<u8>, u: Seq<u8>) -> bool {
    p.len() < u.len() && p == u.take(p.len() as int)
}

/// What a lookup returns after `id` is inserted at path `u` of trie `t`:
/// the path itself is classified `Word(id)`, paths strictly below it keep
/// their classification or appear as plain prefixes, and every other path
/// is untouched.
pub open spec fn ins_lookup(t: Trie, u: Seq<u8>, id: usize, p: Seq<u8>) -> Option<NodeType> {
    if p == u {
        Some(NodeType::Word(id))
    } else if strict_prefix_of(p, u) {
        match t.lookup(p) {
            Some(x) => Some(x),
            None => Some(NodeType::Prefix),
        }
    } else {
        t.lookup(p)
    }
}

/// Dropping a shared first letter preserves the prefix relations.
proof fn lemma_prefix_cons(p: Seq<u8>, u: Seq<u8>)
    requires
        p.len() >= 1,
        u.len() >= 1,
        p[0] == u[0],
    ensures
        (p == u) <==> (p.drop_first() == u.drop_first()),
        strict_prefix_of(p, u) <==> strict_prefix_of(p.drop_first(), u.drop_first()),
{
    if p.drop_first() == u.drop_first() {
        assert(p.drop_first().len() == p.len() - 1);
        assert(u.drop_first().len() == u.len() - 1);
        assert(p.len() == u.len());
        assert(p =~= u) by {
            assert forall|k: int| 0 <= k < p.len() implies p[k] == u[k] by {
                if k > 0 {
                    assert(p[k] == p.drop_first()[k - 1]);
                    assert(u[k] == u.drop_first()[k - 1]);
                }
            }
        }
    }
    if strict_prefix_of(p, u) {
        assert(p.drop_first() =~= u.drop_first().take(p.len() - 1)) by {
            assert forall|k: int| 0 <= k < p.len() - 1 implies p.drop_first()[k]
                == u.drop_first().take(p.len() - 1)[k] by {
                assert(p[k + 1] == u.take(p.len() as int)[k + 1]);
            }
        }
    }
    if strict_prefix_of(p.drop_first(), u.drop_first()) {
        assert(p =~= u.take(p.len() as int)) by {
            assert forall|k: int| 0 <= k < p.len() implies p[k] == u.take(p.len() as int)[k] by {
                if k > 0 {
                    assert(p.drop_first()[k - 1] == u.drop_first().take(p.len() - 1)[k - 1]);
                }
            }
        }
    }
}

/// One insertion step rewrites lookups as `ins_lookup` says: `t1` differs
/// from `t0` only in the child for `u`'s first letter, which went from `c0`
/// (the old child, or an empty node when there was none) to `c1` (that
/// child after the rest of `u` was inserted).
proof fn lemma_ins_pointwise(t0: Trie, t1: Trie, c0: Trie, c1: Trie, u: Seq<u8>, id: usize)
    requires
        t0.children@.len() == 26,
        u.len() >= 1,
        u[0] < 26,
        t1.node_type == t0.node_type,
        t1.children@ == t0.children@.update(u[0] as int, Some(Box::new(c1))),
        t0.children@[u[0] as int] is Some ==> c0 == *t0.children@[u[0] as int]->0,
        t0.children@[u[0] as int] is None ==> c0.node_type == NodeType::Prefix && (forall|
            q: Seq<u8>,
        | #[trigger]
            c0.lookup(q) == if q.len() == 0 {
                Some(NodeType::Prefix)
            } else {
                None::<NodeType>
            }),
        u.len() == 1 ==> c1.node_type == NodeType::Word(id) && c1.children@ == c0.children@,
        u.len() > 1 ==> forall|q: Seq<u8>| #[trigger]
            c1.lookup(q) == ins_lookup(c0, u.drop_first(), id, q),
    ensures
        forall|p: Seq<u8>| #[trigger] t1.lookup(p) == ins_lookup(t0, u, id, p),
{
    let first = u[0] as int;
    let u1 = u.drop_first();
    assert(t1.children@.len() == 26);
    assert forall|p: Seq<u8>| #[trigger] t1.lookup(p) == ins_lookup(t0, u, id, p) by {
        if p.len() == 0 {
            assert(t1.lookup(p) == Some(t1.node_type));
            assert(t0.lookup(p) == Some(t0.node_type));
            assert(strict_prefix_of(p, u)) by {
                assert(p =~= u.take(0));
            }
            assert(p != u);
        } else if p[0] >= 26 {
            assert(t1.lookup(p) == None::<NodeType>);
            assert(t0.lookup(p) == None::<NodeType>);
            if p == u {
                assert(p[0] == u[0]);
                assert(false);
            }
            if strict_prefix_of(p, u) {
                assert(p[0] == u.take(p.len() as int)[0]);
                assert(false);
            }
            assert(t1.lookup(p) == ins_lookup(t0, u, id, p));
        } else if p[0] as int != first {
            assert(t1.children@[p[0] as int] == t0.children@[p[0] as int]);
            assert(t1.lookup(p) == t0.lookup(p));
            if p == u {
                assert(p[0] == u[0]);
                assert(false);
            }
            if strict_prefix_of(p, u) {
                assert(p[0] == u.take(p.len() as int)[0]);
                assert(false);
            }
            assert(t1.lookup(p) == ins_lookup(t0, u, id, p));
        } else {
            let q = p.drop_first();
            assert(t1.children@[p[0] as int] == Some(Box::new(c1)));
            assert(t1.lookup(p) == c1.lookup(q));
            lemma_prefix_cons(p, u);
            if u.len() > 1 {
                assert(c1.lookup(q) == ins_lookup(c0, u1, id, q));
                if t0.children@[first] is Some {
                    assert(t0.lookup(p) == c0.lookup(q));
                    if p == u {
                        assert(q == u1);
                        assert(t1.lookup(p) == Some(NodeType::Word(id)));
                    } else if strict_prefix_of(p, u) {
                        assert(strict_prefix_of(q, u1));
                        assert(q != u1);
                        assert(t1.lookup(p) == ins_lookup(t0, u, id, p));
                    } else {
                        assert(q != u1 && !strict_prefix_of(q, u1));
                        assert(t1.lookup(p) == t0.lookup(p));
                    }
                } else {
                    assert(t0.lookup(p) == None::<NodeType>);
                    if p == u {
                        assert(q == u1);
                        assert(t1.lookup(p) == Some(NodeType::Word(id)));
                    } else if strict_prefix_of(p, u) {
                        assert(strict_prefix_of(q, u1));
                        assert(q != u1);
                        assert(c0.lookup(q) == if q.len() == 0 {
                            Some(NodeType::Prefix)
                        } else {
                            None::<NodeType>
                        });
                        assert(t1.lookup(p) == Some(NodeType::Prefix));
                        assert(ins_lookup(t0, u, id, p) == Some(NodeType::Prefix));
                    } else {
                        assert(q != u1 && !strict_prefix_of(q, u1));
                        assert(q.len() > 0) by {
                            if q.len() == 0 {
                                assert(p =~= u.take(1));
                                assert(strict_prefix_of(p, u));
                            }
                        }
                        assert(t1.lookup(p) == None::<NodeType>);
                    }
                }
            } else {
                // u is the single letter `first`
                assert(u1.len() == 0);
                if q.len() == 0 {
                    assert(p =~= u);
                    assert(c1.lookup(q) == Some(c1.node_type));
                    assert(t1.lookup(p) == Some(NodeType::Word(id)));
                } else {
                    assert(p != u);
                    assert(!strict_prefix_of(p, u)) by {
                        assert(p.len() >= 2 > u.len());
                    }
                    lemma_lookup_children_only(c0, c1, q);
                    assert(c1.lookup(q) == c0.lookup(q));
                    if t0.children@[first] is Some {
                        assert(t0.lookup(p) == c0.lookup(q));
                    } else {
                        assert(t0.lookup(p) == None::<NodeType>);
                        assert(c0.lookup(q) == None::<NodeType>);
                    }
                    assert(t1.lookup(p) == ins_lookup(t0, u, id, p));
                }
            }
        }
    }
}

impl Trie {
    /// The child slots mirror the bit set exactly, and every present child
    /// is itself well formed.
    pub open spec fn wf(&self) -> bool
        decreases *self,
    {
        &&& self.children@.len() == 26
        &&& (forall|l: u32| l >= 26 ==> !(#[trigger] self.child_set.spec_get(l)))
        &&& (forall|l: int|
            0 <= l < 26 ==> (self.child_set.spec_get(l as u32) <==> (
            #[trigger] self.children@[l]) is Some))
        &&& (forall|l: int|
            0 <= l < 26 ==> match #[trigger] self.children@[l] {
                Some(c) => c.wf(),
                None => true,
            })
    }

    /// The classification at path `w`, or `None` when the path is absent.
    pub open spec fn lookup(&self, w: Seq<u8>) -> Option<NodeType>
        decreases w.len(),
    {
        if w.len() == 0 {
            Some(self.node_type)
        } else if w[0] < 26 && self.children@.len() == 26 {
            match self.children@[w[0] as int] {
                Some(c) => c.lookup(w.drop_first()),
                None => None,
            }
        } else {
            None
        }
    }

    pub fn new() -> (r: Self)
        ensures
            r.wf(),
            r.node_type == NodeType::Prefix,
            forall|p: Seq<u8>| #[trigger]
                r.lookup(p) == if p.len() == 0 {
                    Some(NodeType::Prefix)
                } else {
                    None::<NodeType>
                },
    {
        let mut children: Vec<Option<Box<Trie>>> = Vec::new();
        let mut k: usize = 0;
        while k < 26
            invariant
                k <= 26,
                children@.len() == k,
                forall|l: int| 0 <= l < k ==> (#[trigger] children@[l]) is None,
            decreases 26 - k,
        {
            children.push(None);
            k = k + 1;
        }
        let r = Trie { node_type: NodeType::Prefix, children, child_set: BitSet32::new() };
        proof {
            assert forall|p: Seq<u8>| p.len() != 0 implies #[trigger] r.lookup(p)
                == None::<NodeType> by {
                if p[0] < 26 {
                    assert(r.children@[p[0] as int] is None);
                }
            }
        }
        r
    }

    /// The classification of this node.
    pub fn node_type(&self) -> (r: NodeType)
        ensures
            r == self.node_type,
    {
        self.node_type
    }

    /// Inserts `s` with word id `id`.  Fails, leaving the trie unchanged,
    /// when `s` is empty or holds a character outside the alphabet;
    /// otherwise the path of `s`'s folded letters now ends in `Word(id)`,
    /// every strictly shorter path along it is present (kept as it was, or
    /// created as a plain prefix), and all other paths are untouched.
    pub fn insert(&mut self, s: &str, id: usize) -> (ok: bool)
        requires
            old(self).wf(),
        ensures
            final(self).wf(),
            ok == (s@.len() > 0 && all_letters(s@)),
            ok ==> forall|p: Seq<u8>| #[trigger]
                final(self).lookup(p) == ins_lookup(*old(self), word_letters(s@), id, p),
            !ok ==> *final(self) == *old(self),
    {
        match word_to_letters(s) {
            Some(w) => {
                proof {
                    crate::letters::lemma_word_letters_in_range(s@);
                }
                self.ins(&w, 0, id);
                proof {
                    assert(w@.skip(0) =~= word_letters(s@));
                }
                true
            },
            None => false,
        }
    }

    /// Walks or creates the path of `w[pos..]` below this node and marks
    /// its end as `Word(id)`.
    fn ins(&mut self, w: &Vec<u8>, pos: usize, id: usize)
        requires
            old(self).wf(),
            pos < w@.len(),
            forall|k: int| 0 <= k < w@.len() ==> #[trigger] w@[k] < 26,
        ensures
            final(self).wf(),
            forall|p: Seq<u8>| #[trigger]
                final(self).lookup(p) == ins_lookup(*old(self), w@.skip(pos as int), id, p),
        decreases w@.len() - pos,
    {
        let ghost u = w@.skip(pos as int);
        proof {
            assert(u[0] == w@[pos as int]);
            assert(u.len() == w@.len() - pos);
        }
        let n = w.len();
        let first = w[pos] as usize;
        let had_child = self.children[first].is_some();
        if !had_child {
            self.child_set.add(first as u32);
            let fresh = Trie::new();
            let ghost fresh0 = fresh;
            self.children.set(first, Some(Box::new(fresh)));
            proof {
                assert(self.children@[first as int] is Some);
                assert(*self.children@[first as int]->0 == fresh0);
            }
        }
        let slot = &mut self.children[first];
        let mut node = slot.take().unwrap();
        let ghost node_pre = *node;
        proof {
            assert(node_pre.wf());
            if had_child {
                assert(old(self).children@[first as int] is Some);
                assert(node_pre == *old(self).children@[first as int]->0);
            } else {
                assert(node_pre.node_type == NodeType::Prefix);
                assert(forall|p: Seq<u8>| #[trigger]
                    node_pre.lookup(p) == if p.len() == 0 {
                        Some(NodeType::Prefix)
                    } else {
                        None::<NodeType>
                    });
            }
        }
        if pos + 1 < n {
            (&mut *node).ins(w, pos + 1, id);
        } else {
            (*node).node_type = NodeType::Word(id);
        }
        let ghost node_post = *node;
        *slot = Some(node);
        proof {
            assert(self.children@ =~= old(self).children@.update(
                first as int,
                Some(Box::new(node_post)),
            ));
            // well-formedness
            assert forall|l: int| 0 <= l < 26 implies (self.child_set.spec_get(l as u32) <==> (
            #[trigger] self.children@[l]) is Some) by {
                if l != first {
                    assert(self.children@[l] == old(self).children@[l]);
                }
            }
            assert forall|l: int|
                0 <= l < 26 implies match #[trigger] self.children@[l] {
                Some(c) => c.wf(),
                None => true,
            } by {
                if l != first {
                    assert(self.children@[l] == old(self).children@[l]);
                } else {
                    if pos + 1 < w.len() {
                    } else {
                        assert(node_post.children@ == node_pre.children@);
                        assert(node_pre.wf());
                        assert(node_post.wf());
                    }
                }
            }
            assert(self.wf());
            // pointwise lookup, through the child for `first`
            let ghost u1 = w@.skip(pos as int + 1);
            assert(u.drop_first() =~= u1);
            assert(self.node_type == old(self).node_type);
            if pos + 1 < n {
                assert(u.len() > 1);
                assert forall|q: Seq<u8>| #[trigger]
                    node_post.lookup(q) == ins_lookup(node_pre, u.drop_first(), id, q) by {
                    assert(node_post.lookup(q) == ins_lookup(node_pre, u1, id, q));
                }
            } else {
                assert(u.len() == 1);
            }
            if had_child {
                assert(old(self).children@[first as int] is Some);
            } else {
                assert(old(self).children@[first as int] is None);
            }
            lemma_ins_pointwise(*old(self), *self, node_pre, node_post, u, id);
        }
    }

    /// The classification of `s`'s path: `None` when `s` is empty, holds a
    /// character outside the alphabet, or traces no path of the trie.
    pub fn contains(&self, s: &str) -> (r: Option<NodeType>)
        requires
            self.wf(),
        ensures
            r == if s@.len() > 0 && all_letters(s@) {
                self.lookup(word_letters(s@))
            } else {
                None::<NodeType>
            },
    {
        match word_to_letters(s) {
            Some(w) => {
                proof {
                    crate::letters::lemma_word_letters_in_range(s@);
                    assert(w@.skip(0) =~= word_letters(s@));
                }
                self.cns(&w, 0)
            },
            None => None,
        }
    }

    /// Walks the path of `w[pos..]` below this node.
    fn cns(&self, w: &Vec<u8>, pos: usize) -> (r: Option<NodeType>)
        requires
            self.wf(),
            pos < w@.len(),
            forall|k: int| 0 <= k < w@.len() ==> #[trigger] w@[k] < 26,
        ensures
            r == self.lookup(w@.skip(pos as int)),
        decreases w@.len() - pos,
    {
        let ghost u = w@.skip(pos as int);
        proof {
            assert(u[0] == w@[pos as int]);
            assert(u.drop_first() =~= w@.skip(pos as int + 1));
        }
        let n = w.len();
        let first = w[pos] as usize;
        if self.children[first].is_some() {
            let child = self.children[first].as_ref().unwrap();
            proof {
                assert(self.children@[first as int] is Some);
                assert(self.lookup(u) == self.children@[first as int]->0.lookup(u.drop_first()));
            }
            if pos + 1 < n {
                let r = child.cns(w, pos + 1);
                proof {
                    assert(r == self.lookup(u));
                }
                r
            } else {
                proof {
                    assert(u.drop_first().len() == 0);
                    assert(self.lookup(u) == Some(self.children@[first as int]->0.node_type));
                }
                Some(child.node_type())
            }
        } else {
            proof {
                assert(self.lookup(u) == None::<NodeType>);
            }
            None
        }
    }

    /// An iterator over the present children, ascending by letter.
    pub fn iter(&self) -> (it: TrieIterator)
        requires
            self.wf(),
        ensures
            it.trie == self,
            it.iter.value == self.child_set.value,
            it.iter.i == 0,
            it.wf(),
    {
        TrieIterator::new(self)
    }
}

/// An inserted word is afterwards classified as a word with its id, and
/// each proper prefix of it is present, as at least a plain prefix.
pub proof fn lemma_inserted_word_found(t0: Trie, t1: Trie, u: Seq<u8>, id: usize, p: Seq<u8>)
    requires
        forall|q: Seq<u8>| #[trigger] t1.lookup(q) == ins_lookup(t0, u, id, q),
        strict_prefix_of(p, u),
    ensures
        t1.lookup(u) == Some(NodeType::Word(id)),
        t1.lookup(p) is Some,
{
    assert(t1.lookup(u) == ins_lookup(t0, u, id, u));
    assert(t1.lookup(p) == ins_lookup(t0, u, id, p));
}

/// A word that was never inserted is never reported as a word: an
/// insertion classifies no path as `Word` other than the inserted one, so
/// any other path reported `Word` was already so classified before.
pub proof fn lemma_insert_no_new_words(
    t0: Trie,
    t1: Trie,
    u: Seq<u8>,
    id: usize,
    p: Seq<u8>,
    k: usize,
)
    requires
        forall|q: Seq<u8>| #[trigger] t1.lookup(q) == ins_lookup(t0, u, id, q),
        p != u,
        t1.lookup(p) == Some(NodeType::Word(k)),
    ensures
        t0.lookup(p) == Some(NodeType::Word(k)),
{
    assert(t1.lookup(p) == ins_lookup(t0, u, id, p));
}

/// A lookup of a nonempty path reads only the children, never the node's
/// own classification.
proof fn lemma_lookup_children_only(a: Trie, b: Trie, q: Seq<u8>)
    requires
        q.len() > 0,
        a.children@ == b.children@,
    ensures
        a.lookup(q) == b.lookup(q),
{
}

/// Iterator over the present children of one trie node, paired with their
/// letter values, ascending by letter.
pub struct TrieIterator<'a> {
    pub trie: &'a Trie,
    pub iter: IndexIter32,
}

impl<'a> TrieIterator<'a> {
    pub open spec fn wf(&self) -> bool {
        &&& self.trie.wf()
        &&& self.iter.wf()
        &&& self.iter.value == self.trie.child_set.value
    }

    pub fn new(trie: &'a Trie) -> (it: Self)
        requires
            trie.wf(),
        ensures
            it.trie == trie,
            it.iter.value == trie.child_set.value,
            it.iter.i == 0,
            it.wf(),
    {
        TrieIterator { trie, iter: trie.child_set.iter_ones() }
    }

    /// Yields the next present child and its letter, in ascending letter
    /// order: each yielded letter has its bit set, skipped letters do not,
    /// and the child is the node's child for that letter.
    pub fn next(&mut self) -> (r: Option<(&'a Trie, u8)>)
        requires
            old(self).wf(),
        ensures
            final(self).wf(),
            final(self).trie == old(self).trie,
            match r {
                Some((child, l)) => {
                    &&& old(self).iter.i <= l < 26
                    &&& old(self).trie.children@[l as int] is Some
                    &&& *child == *old(self).trie.children@[l as int]->0
                    &&& child.wf()
                    &&& forall|j: u32|
                        old(self).iter.i <= j < l ==> !(#[trigger] old(
                            self,
                        ).trie.child_set.spec_get(j))
                    &&& final(self).iter.i == l + 1
                },
                None => {
                    &&& forall|j: u32|
                        old(self).iter.i <= j < 26 ==> !(#[trigger] old(
                            self,
                        ).trie.child_set.spec_get(j))
                },
            },
    {
        match self.iter.next() {
            Some(l) => {
                proof {
                    assert(self.trie.child_set.spec_get(l));
                }
                if l < 26 {
                    let idx = l as usize;
                    if self.trie.children[idx].is_some() {
                        let child: &'a Trie = self.trie.children[idx].as_ref().unwrap();
                        proof {
                            assert forall|j: u32|
                                old(self).iter.i <= j < l implies !(#[trigger] old(
                                self,
                            ).trie.child_set.spec_get(j)) by {}
                        }
                        Some((child, l as u8))
                    } else {
                        proof {
                            assert(false);
                        }
                        None
                    }
                } else {
                    proof {
                        assert(!self.trie.child_set.spec_get(l));
                        assert(false);
                    }
                    None
                }
            },
            None => {
                proof {
                    assert forall|j: u32|
                        old(self).iter.i <= j < 26 implies !(#[trigger] old(
                        self,
                    ).trie.child_set.spec_get(j)) by {}
                }
                None
            },
        }
    }
}

} // verus!
