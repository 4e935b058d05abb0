use vstd::prelude::*;

use crate::trie_node::TrieNode;

verus! {

/// The prefix tree itself: a root node, which stands for the empty prefix,
/// and the word-level operations built on character-by-character traversal.
#[derive(Debug)]
pub struct Trie {
    root: TrieNode,
}

impl Trie {
    /// Well-formedness: the edge labels are distinct at every node.
    pub closed spec fn wf(self) -> bool {
        self.root.wf()
    }

    /// The word `w` is stored in the trie.
    pub closed spec fn contains_spec(self, w: Seq<char>) -> bool {
        self.root.contains_word(w)
    }

    /// The characters of `w` form a path of edges from the root.
    pub closed spec fn has_path_spec(self, w: Seq<char>) -> bool {
        self.root.has_path(w)
    }

    /// The length of the longest prefix of `w` whose characters form a path
    /// of edges from the root.
    pub closed spec fn prefix_path_len(self, w: Seq<char>) -> nat {
        self.root.reach_len(w)
    }

    /// The number of nodes of the tree, the root excluded.
    pub closed spec fn spec_len(self) -> nat {
        self.root.size()
    }

    /// Initializes a new empty trie: no nodes besides the root, no word
    /// stored, no path present.
    pub fn new() -> (r: Trie)
        ensures
            r.wf(),
            r.spec_len() == 0,
            forall|w: Seq<char>| !r.contains_spec(w),
            forall|w: Seq<char>| w.len() > 0 ==> !r.has_path_spec(w),
            forall|w: Seq<char>| r.prefix_path_len(w) == 0,
    {
        let r = Trie { root: TrieNode::default() };
        proof {
            TrieNode::lemma_bare_node(r.root);
        }
        r
    }

    /// Inserts a new word into the trie: afterwards the trie stores exactly
    /// the words it stored before plus `word`, its paths are the old paths
    /// plus the prefixes of `word`, and it has grown by one node for each
    /// character of `word` that was not already on a path from the root.
    pub fn insert(&mut self, word: &str)
        requires
            old(self).wf(),
        ensures
            final(self).wf(),
            forall|w: Seq<char>|
                final(self).contains_spec(w) <==> old(self).contains_spec(w) || w == word@,
            forall|p: Seq<char>|
                #![trigger final(self).has_path_spec(p)]
                final(self).has_path_spec(p) <==> old(self).has_path_spec(p) || p.is_prefix_of(
                    word@,
                ),
            final(self).spec_len() + old(self).prefix_path_len(word@) == old(self).spec_len()
                + word@.len(),
    {
        proof {
            assert(word@.subrange(0, word@.len() as int) =~= word@);
        }
        self.root.insert_at(word, 0);
    }

    /// Checks if the trie contains a word: true exactly when `word` is one of
    /// the stored words. A word that is only a prefix of a stored word, and
    /// was never inserted itself, is not contained.
    pub fn contains(&self, word: &str) -> (r: bool)
        requires
            self.wf(),
        ensures
            r == self.contains_spec(word@),
    {
        proof {
            assert(word@.subrange(0, word@.len() as int) =~= word@);
        }
        self.root.contains_at(word, 0)
    }

    /// Calculates the length of the trie: the number of nodes of the tree,
    /// the root excluded — the sum of the lengths of all children nodes and
    /// of the root node.
    pub fn len(&self) -> (r: usize)
        requires
            self.spec_len() <= usize::MAX,
        ensures
            r == self.spec_len(),
    {
        self.root.len()
    }

    /// A word just inserted is contained. The hypothesis relating the two
    /// tries is what `insert` ensures of the trie before and after the call.
    pub proof fn lemma_insert_then_contains(t1: Trie, t2: Trie, w: Seq<char>)
        requires
            forall|v: Seq<char>| t2.contains_spec(v) <==> t1.contains_spec(v) || v == w,
        ensures
            t2.contains_spec(w),
    {
    }

    /// Prefixes are not implicitly contained: after inserting one word into a
    /// trie that stores nothing, no strict prefix of that word is contained.
    /// The two hypotheses on the tries are what `new` and `insert` ensure.
    pub proof fn lemma_strict_prefix_not_contained(
        t0: Trie,
        t1: Trie,
        w1: Seq<char>,
        w2: Seq<char>,
    )
        requires
            forall|w: Seq<char>| !t0.contains_spec(w),
            forall|w: Seq<char>| t1.contains_spec(w) <==> t0.contains_spec(w) || w == w1,
            w2 != w1,
            w2.len() < w1.len(),
            w2.is_prefix_of(w1),
        ensures
            !t1.contains_spec(w2),
    {
    }

    /// Inserting a word that is already contained is idempotent: the length
    /// and the contained words stay exactly as they were. The hypotheses
    /// relating `t1` and `t2` are what `insert` ensures, so a second
    /// insertion of the same word changes nothing observable.
    pub proof fn lemma_insert_idempotent(t1: Trie, t2: Trie, w: Seq<char>)
        requires
            t1.contains_spec(w),
            forall|v: Seq<char>| t2.contains_spec(v) <==> t1.contains_spec(v) || v == w,
            t2.spec_len() + t1.prefix_path_len(w) == t1.spec_len() + w.len(),
        ensures
            t2.spec_len() == t1.spec_len(),
            forall|v: Seq<char>| t2.contains_spec(v) <==> t1.contains_spec(v),
    {
        TrieNode::lemma_contains_word_is_path(t1.root, w);
    }

    /// The shared length that the node count accounting speaks of is pinned
    /// down by which prefixes of the word are paths: it is `k` exactly when
    /// the first `k` characters of the word form a path from the root and the
    /// first `k + 1` do not (or the word has only `k`).
    pub proof fn lemma_prefix_path_len_of_paths(t: Trie, w: Seq<char>, k: int)
        requires
            0 <= k <= w.len(),
            t.has_path_spec(w.take(k)),
            k < w.len() ==> !t.has_path_spec(w.take(k + 1)),
        ensures
            t.prefix_path_len(w) == k,
    {
        TrieNode::lemma_reach_len_of_paths(t.root, w, k);
    }
}

impl Default for Trie {
    /// The same trie as [`Trie::new`] returns.
    fn default() -> (r: Trie)
        ensures
            r.wf(),
            r.spec_len() == 0,
            forall|w: Seq<char>| !r.contains_spec(w),
            forall|w: Seq<char>| w.len() > 0 ==> !r.has_path_spec(w),
            forall|w: Seq<char>| r.prefix_path_len(w) == 0,
    {
        Trie::new()
    }
}

} // verus!
