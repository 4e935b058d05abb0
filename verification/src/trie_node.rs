use vstd::prelude::*;

verus! {

/// One position in the prefix tree: an end-of-word marker plus the labelled
/// edges to the child nodes. The edge labels are distinct (see [`TrieNode::wf`]),
/// so the children form a mapping from characters to nodes.
#[derive(Debug)]
pub struct TrieNode {
    pub is_end_of_word: bool,
    pub children: Vec<(char, TrieNode)>,
}

impl TrieNode {
    /// The edge labels of `s` are pairwise distinct.
    pub open spec fn keys_unique(s: Seq<(char, TrieNode)>) -> bool {
        forall|i: int, j: int|
            0 <= i < j < s.len() ==> (#[trigger] s[i]).0 != (#[trigger] s[j]).0
    }

    /// Well-formedness: edge labels are distinct at every node of the subtree.
    pub open spec fn wf(self) -> bool
        decreases self,
    {
        &&& Self::keys_unique(self.children@)
        &&& forall|i: int|
            0 <= i < self.children@.len() ==> (#[trigger] self.children@[i]).1.wf()
    }

    /// Some entry of `s` is labelled `c`.
    pub open spec fn has_key(s: Seq<(char, TrieNode)>, c: char) -> bool {
        exists|i: int| 0 <= i < s.len() && (#[trigger] s[i]).0 == c
    }

    /// The index of the entry of `s` labelled `c` (the index is unique when
    /// the labels are distinct).
    pub open spec fn key_index(s: Seq<(char, TrieNode)>, c: char) -> int {
        choose|i: int| 0 <= i < s.len() && (#[trigger] s[i]).0 == c
    }

    /// The node that the entry of `s` labelled `c` leads to.
    pub open spec fn child_node(s: Seq<(char, TrieNode)>, c: char) -> TrieNode {
        s[Self::key_index(s, c)].1
    }

    /// The word `w` is stored in the subtree rooted at `self`: its characters
    /// form a path of edges from `self`, and the node the path ends at is
    /// marked end-of-word.
    pub open spec fn contains_word(self, w: Seq<char>) -> bool
        decreases w.len(),
    {
        if w.len() == 0 {
            self.is_end_of_word
        } else if Self::has_key(self.children@, w[0]) {
            Self::child_node(self.children@, w[0]).contains_word(w.drop_first())
        } else {
            false
        }
    }

    /// The characters of `w` form a path of edges from `self` (whether or not
    /// any of the nodes along it ends a word).
    pub open spec fn has_path(self, w: Seq<char>) -> bool
        decreases w.len(),
    {
        ||| w.len() == 0
        ||| (Self::has_key(self.children@, w[0])
            && Self::child_node(self.children@, w[0]).has_path(w.drop_first()))
    }

    /// The length of the longest prefix of `w` that is a path of edges
    /// from `self`.
    pub open spec fn reach_len(self, w: Seq<char>) -> nat
        decreases w.len(),
    {
        if w.len() == 0 {
            0
        } else if Self::has_key(self.children@, w[0]) {
            1 + Self::child_node(self.children@, w[0]).reach_len(w.drop_first())
        } else {
            0
        }
    }

    /// The number of nodes in the subtree rooted at `self`, `self` itself
    /// excluded: the direct children plus all their descendants.
    pub open spec fn size(self) -> nat
        decreases self, 1int,
    {
        Self::forest_size_from(self.children@, 0)
    }

    /// The number of nodes in the subtrees of the entries of `s` from index
    /// `k` on, the entry nodes themselves included.
    pub open spec fn forest_size_from(s: Seq<(char, TrieNode)>, k: int) -> nat
        decreases s, s.len() - k,
    {
        if k < 0 || k >= s.len() {
            0
        } else {
            1 + s[k].1.size() + Self::forest_size_from(s, k + 1)
        }
    }

    /// The paths of `post` are the paths of `pre` plus the prefixes of
    /// `suffix` (how an insertion of `suffix` changes the paths of a node).
    pub open spec fn paths_extended(pre: TrieNode, post: TrieNode, suffix: Seq<char>) -> bool {
        forall|p: Seq<char>|
            #![trigger post.has_path(p)]
            post.has_path(p) <==> pre.has_path(p) || p.is_prefix_of(suffix)
    }

    /// The string `s` is suggested below `self` for the given prefix: it is
    /// the prefix followed by a word stored in the subtree rooted at `self`.
    pub open spec fn suggested(self, prefix: Seq<char>, s: Seq<char>) -> bool {
        exists|w: Seq<char>| self.contains_word(w) && s == prefix + w
    }

    /// Entries with distinct labels at distinct indices carry distinct labels,
    /// whichever index is the smaller one.
    pub proof fn lemma_keys_distinct(s: Seq<(char, TrieNode)>, i: int, j: int)
        requires
            Self::keys_unique(s),
            0 <= i < s.len(),
            0 <= j < s.len(),
            i != j,
        ensures
            s[i].0 != s[j].0,
    {
    }

    /// With distinct labels, the entry at index `i` is the one its label
    /// leads to.
    pub proof fn lemma_key_at(s: Seq<(char, TrieNode)>, i: int)
        requires
            Self::keys_unique(s),
            0 <= i < s.len(),
        ensures
            Self::has_key(s, s[i].0),
            Self::key_index(s, s[i].0) == i,
            Self::child_node(s, s[i].0) == s[i].1,
    {
        assert(Self::has_key(s, s[i].0));
        let j = Self::key_index(s, s[i].0);
        if j != i {
            Self::lemma_keys_distinct(s, i, j);
        }
    }

    /// Appending an entry adds its node and its subtree to the count.
    pub proof fn lemma_forest_size_push(s: Seq<(char, TrieNode)>, x: (char, TrieNode), k: int)
        requires
            0 <= k <= s.len(),
        ensures
            Self::forest_size_from(s.push(x), k) == Self::forest_size_from(s, k) + 1
                + x.1.size(),
        decreases s.len() - k,
    {
        if k == s.len() {
            assert(s.push(x)[k] == x);
            assert(Self::forest_size_from(s.push(x), k + 1) == 0);
        } else {
            assert(s.push(x)[k] == s[k]);
            Self::lemma_forest_size_push(s, x, k + 1);
        }
    }

    /// Replacing the entry at index `j` swaps its subtree for the new one in
    /// the count; the count before the index is untouched.
    pub proof fn lemma_forest_size_update(
        s: Seq<(char, TrieNode)>,
        j: int,
        x: (char, TrieNode),
        k: int,
    )
        requires
            0 <= j < s.len(),
            0 <= k <= s.len(),
        ensures
            k <= j ==> Self::forest_size_from(s.update(j, x), k) + s[j].1.size()
                == Self::forest_size_from(s, k) + x.1.size(),
            k > j ==> Self::forest_size_from(s.update(j, x), k) == Self::forest_size_from(s, k),
        decreases s.len() - k,
    {
        if k < s.len() {
            Self::lemma_forest_size_update(s, j, x, k + 1);
            if k == j {
                assert(s.update(j, x)[k] == x);
            } else {
                assert(s.update(j, x)[k] == s[k]);
            }
        }
    }

    /// Dropping the last entry removes its node and its subtree from the count.
    pub proof fn lemma_forest_size_drop_last(s: Seq<(char, TrieNode)>, k: int)
        requires
            s.len() > 0,
            0 <= k < s.len(),
        ensures
            Self::forest_size_from(s.drop_last(), k) + 1 + s.last().1.size()
                == Self::forest_size_from(s, k),
        decreases s.len() - k,
    {
        if k == s.len() - 1 {
            assert(Self::forest_size_from(s.drop_last(), k) == 0);
            assert(Self::forest_size_from(s, k + 1) == 0);
        } else {
            assert(s.drop_last()[k] == s[k]);
            Self::lemma_forest_size_drop_last(s, k + 1);
        }
    }

    /// Each entry from `k` on contributes at least its own node to the count.
    pub proof fn lemma_forest_size_lower(s: Seq<(char, TrieNode)>, k: int)
        requires
            0 <= k <= s.len(),
        ensures
            Self::forest_size_from(s, k) >= s.len() - k,
        decreases s.len() - k,
    {
        if k < s.len() {
            Self::lemma_forest_size_lower(s, k + 1);
        }
    }

    /// Removing the entry at index `j` by a swap with the last entry and then
    /// appending an entry with the same label keeps every other entry of the
    /// children mapping and leads that label to the new node.
    pub proof fn lemma_children_replace(s0: Seq<(char, TrieNode)>, j: int, x: (char, TrieNode))
        requires
            Self::keys_unique(s0),
            0 <= j < s0.len(),
            x.0 == s0[j].0,
        ensures
            ({
                let s2 = s0.update(j, s0.last()).drop_last().push(x);
                &&& Self::keys_unique(s2)
                &&& s2.len() == s0.len()
                &&& forall|i: int|
                    0 <= i < s2.len() ==> (#[trigger] s2[i]).1.wf() == (if i == s2.len() - 1 {
                        x.1.wf()
                    } else if i == j {
                        s0.last().1.wf()
                    } else {
                        s0[i].1.wf()
                    })
                &&& Self::has_key(s2, x.0) && Self::child_node(s2, x.0) == x.1
                &&& forall|c: char|
                    c != x.0 ==> (Self::has_key(s2, c) <==> Self::has_key(s0, c))
                &&& forall|c: char|
                    c != x.0 && Self::has_key(s0, c) ==> Self::child_node(s2, c)
                        == Self::child_node(s0, c)
            }),
    {
        let n = s0.len();
        let s1 = s0.update(j, s0.last()).drop_last();
        let s2 = s1.push(x);
        assert(s1.len() == n - 1);
        assert(s2.len() == n);
        // Each entry of s1 is an entry of s0 at a distinct index other than j.
        let origin = |i: int| if i == j { n - 1 } else { i };
        assert forall|i: int| 0 <= i < n - 1 implies s1[i] == s0[origin(i)] by {}
        assert forall|i1: int, i2: int|
            0 <= i1 < i2 < n - 1 implies (#[trigger] s1[i1]).0 != (#[trigger] s1[i2]).0 by {
            Self::lemma_keys_distinct(s0, origin(i1), origin(i2));
        }
        // No entry of s1 keeps the replaced label, so pushing x keeps labels unique.
        assert forall|i: int| 0 <= i < n - 1 implies (#[trigger] s1[i]).0 != x.0 by {
            Self::lemma_keys_distinct(s0, origin(i), j);
        }
        assert(Self::keys_unique(s2));
        assert(s2[n - 1] == x);
        Self::lemma_key_at(s2, n - 1);
        assert forall|c: char| c != x.0 && Self::has_key(s0, c) implies Self::has_key(s2, c)
            && Self::child_node(s2, c) == Self::child_node(s0, c) by {
            let i0 = Self::key_index(s0, c);
            Self::lemma_key_at(s0, i0);
            let i = if i0 == n - 1 { j } else { i0 };
            assert(s2[i] == s0[i0]);
            Self::lemma_key_at(s2, i);
        }
        assert forall|c: char| c != x.0 && Self::has_key(s2, c) implies Self::has_key(s0, c) by {
            let i = Self::key_index(s2, c);
            Self::lemma_key_at(s2, i);
            assert(s2[i] == s0[origin(i)]);
        }
    }

    /// Appending an entry with a fresh label keeps every entry of the children
    /// mapping and leads the new label to the new node.
    pub proof fn lemma_children_add(s0: Seq<(char, TrieNode)>, x: (char, TrieNode))
        requires
            Self::keys_unique(s0),
            !Self::has_key(s0, x.0),
        ensures
            ({
                let s2 = s0.push(x);
                &&& Self::keys_unique(s2)
                &&& Self::has_key(s2, x.0) && Self::child_node(s2, x.0) == x.1
                &&& forall|c: char|
                    c != x.0 ==> (Self::has_key(s2, c) <==> Self::has_key(s0, c))
                &&& forall|c: char|
                    c != x.0 && Self::has_key(s0, c) ==> Self::child_node(s2, c)
                        == Self::child_node(s0, c)
            }),
    {
        let n = s0.len();
        let s2 = s0.push(x);
        assert forall|i: int| 0 <= i < n implies (#[trigger] s2[i]) == s0[i] by {}
        assert(s2[n as int] == x);
        assert(Self::keys_unique(s2));
        Self::lemma_key_at(s2, n as int);
        assert forall|c: char| c != x.0 && Self::has_key(s0, c) implies Self::has_key(s2, c)
            && Self::child_node(s2, c) == Self::child_node(s0, c) by {
            let i0 = Self::key_index(s0, c);
            Self::lemma_key_at(s0, i0);
            Self::lemma_key_at(s2, i0);
        }
        assert forall|c: char| c != x.0 && Self::has_key(s2, c) implies Self::has_key(s0, c) by {
            let i = Self::key_index(s2, c);
            Self::lemma_key_at(s2, i);
        }
    }

    /// A stored word's characters form a full path.
    pub proof fn lemma_contains_word_is_path(n: TrieNode, w: Seq<char>)
        requires
            n.contains_word(w),
        ensures
            n.has_path(w),
            n.reach_len(w) == w.len(),
        decreases w.len(),
    {
        if w.len() > 0 {
            Self::lemma_contains_word_is_path(
                Self::child_node(n.children@, w[0]),
                w.drop_first(),
            );
        }
    }

    /// The longest prefix of `w` that is a path is pinned down by which
    /// prefixes of `w` are paths: if the first `k` characters form a path and
    /// the first `k + 1` do not (or `w` has only `k`), that longest prefix
    /// has length `k`.
    pub proof fn lemma_reach_len_of_paths(n: TrieNode, w: Seq<char>, k: int)
        requires
            0 <= k <= w.len(),
            n.has_path(w.take(k)),
            k < w.len() ==> !n.has_path(w.take(k + 1)),
        ensures
            n.reach_len(w) == k,
        decreases w.len(),
    {
        if k == 0 {
            if w.len() > 0 {
                let w1 = w.take(1);
                assert(w1[0] == w[0]);
                assert(w1.drop_first() =~= Seq::<char>::empty());
                if Self::has_key(n.children@, w[0]) {
                    assert(Self::child_node(n.children@, w[0]).has_path(w1.drop_first()));
                    assert(n.has_path(w1));
                }
                assert(!Self::has_key(n.children@, w[0]));
            }
        } else {
            let wk = w.take(k);
            assert(wk[0] == w[0]);
            assert(Self::has_key(n.children@, w[0]));
            let child = Self::child_node(n.children@, w[0]);
            let w1 = w.drop_first();
            assert(wk.drop_first() =~= w1.take(k - 1));
            if k < w.len() {
                assert(w.take(k + 1)[0] == w[0]);
                assert(w.take(k + 1).drop_first() =~= w1.take(k));
                assert(!child.has_path(w1.take(k)));
            }
            Self::lemma_reach_len_of_paths(child, w1, k - 1);
        }
    }

    /// Equal sequences with the same front part have the same remainder.
    pub proof fn lemma_prepend_cancel(p: Seq<char>, a: Seq<char>, b: Seq<char>)
        requires
            p + a == p + b,
        ensures
            a == b,
    {
        assert((p + a).len() == p.len() + a.len());
        assert((p + b).len() == p.len() + b.len());
        assert forall|k: int| 0 <= k < a.len() implies a[k] == b[k] by {
            assert((p + a)[p.len() + k] == a[k]);
            assert((p + b)[p.len() + k] == b[k]);
        }
        assert(a =~= b);
    }

    /// A prefix followed by `w` is suggested below a node exactly when `w` is
    /// stored below it, whatever the prefix is.
    pub proof fn lemma_suggested_iff_contains(n: TrieNode, p: Seq<char>, w: Seq<char>)
        ensures
            n.suggested(p, p + w) <==> n.contains_word(w),
    {
        if n.contains_word(w) {
            assert(n.contains_word(w) && p + w == p + w);
            assert(n.suggested(p, p + w));
        }
        if n.suggested(p, p + w) {
            let w2 = choose|w2: Seq<char>| n.contains_word(w2) && p + w == p + w2;
            Self::lemma_prepend_cancel(p, w, w2);
        }
    }

    /// Suggestions are prefix-independent: whether a node suggests a prefix
    /// followed by `w` does not depend on the prefix — every prefix yields
    /// the same suffixes, each concatenated onto that prefix.
    pub proof fn lemma_suggested_prefix_independent(
        n: TrieNode,
        p1: Seq<char>,
        p2: Seq<char>,
        w: Seq<char>,
    )
        ensures
            n.suggested(p1, p1 + w) <==> n.suggested(p2, p2 + w),
    {
        Self::lemma_suggested_iff_contains(n, p1, w);
        Self::lemma_suggested_iff_contains(n, p2, w);
    }

    /// A word beginning with the label of an existing edge is stored below
    /// the node exactly when its remainder is stored below that child.
    pub proof fn lemma_contains_word_cons(n: TrieNode, c: char, w: Seq<char>)
        requires
            Self::has_key(n.children@, c),
        ensures
            n.contains_word(seq![c] + w) == Self::child_node(n.children@, c).contains_word(w),
    {
        let v = seq![c] + w;
        assert(v[0] == c);
        assert(v.drop_first() =~= w);
    }

    /// Two nonempty sequences with the same first element and the same
    /// remainder are the same sequence.
    pub proof fn lemma_eq_by_head_tail(a: Seq<char>, b: Seq<char>)
        requires
            a.len() > 0,
            b.len() > 0,
            a[0] == b[0],
            a.drop_first() == b.drop_first(),
        ensures
            a == b,
    {
        assert(a.drop_first().len() == a.len() - 1);
        assert(b.drop_first().len() == b.len() - 1);
        assert(a.len() == b.len());
        assert forall|k: int| 0 <= k < a.len() implies a[k] == b[k] by {
            if k > 0 {
                assert(a.drop_first()[k - 1] == a[k]);
                assert(b.drop_first()[k - 1] == b[k]);
            }
        }
        assert(a =~= b);
    }

    /// A node without children stores no word, has no nonempty path and
    /// an empty subtree; if it moreover ends no word, it stores nothing.
    pub proof fn lemma_bare_node(n: TrieNode)
        requires
            n.children@.len() == 0,
        ensures
            n.wf(),
            n.size() == 0,
            forall|w: Seq<char>| w.len() > 0 ==> !n.has_path(w),
            forall|w: Seq<char>| n.reach_len(w) == 0,
            !n.is_end_of_word ==> forall|w: Seq<char>| !n.contains_word(w),
    {
        assert forall|w: Seq<char>| w.len() > 0 implies !Self::has_key(n.children@, w[0]) by {}
        assert forall|w: Seq<char>| n.reach_len(w) == 0 by {
            if w.len() > 0 {
                assert(!Self::has_key(n.children@, w[0]));
            }
        }
        assert forall|w: Seq<char>| w.len() > 0 implies !n.has_path(w) by {
            assert(!Self::has_key(n.children@, w[0]));
        }
        if !n.is_end_of_word {
            assert forall|w: Seq<char>| !n.contains_word(w) by {
                if w.len() > 0 {
                    assert(!Self::has_key(n.children@, w[0]));
                }
            }
        }
    }

    /// The index of the child edge labelled `c`, if there is one.
    fn find_child(&self, c: char) -> (r: Option<usize>)
        ensures
            match r {
                Some(j) => j < self.children@.len() && self.children@[j as int].0 == c,
                None => !Self::has_key(self.children@, c),
            },
    {
        let mut j: usize = 0;
        while j < self.children.len()
            invariant
                j <= self.children@.len(),
                forall|i: int| 0 <= i < j ==> (#[trigger] self.children@[i]).0 != c,
            decreases self.children@.len() - j,
        {
            if self.children[j].0 == c {
                return Some(j);
            }
            j += 1;
        }
        None
    }

    /// Calculates the length of the current node: the number of nodes of the
    /// subtree rooted at `self`, `self` itself excluded — the sum of the
    /// lengths of all children plus one for each child.
    pub fn len(&self) -> (r: usize)
        requires
            self.size() <= usize::MAX,
        ensures
            r == self.size(),
        decreases *self,
    {
        let mut sum: usize = self.children.len();
        let mut j: usize = 0;
        proof {
            Self::lemma_forest_size_lower(self.children@, 0);
        }
        while j < self.children.len()
            invariant
                j <= self.children@.len(),
                self.size() <= usize::MAX,
                sum >= self.children@.len(),
                sum + Self::forest_size_from(self.children@, j as int) == self.size()
                    + self.children@.len() - j,
            decreases self.children@.len() - j,
        {
            proof {
                Self::lemma_forest_size_lower(self.children@, j + 1);
            }
            let child_len = self.children[j].1.len();
            sum += child_len;
            j += 1;
        }
        sum
    }

    /// Follows the edges for the characters of `word` from position `i` on
    /// and reports whether the node reached ends a word.
    pub(crate) fn contains_at(&self, word: &str, i: usize) -> (r: bool)
        requires
            self.wf(),
            i <= word@.len(),
        ensures
            r == self.contains_word(word@.subrange(i as int, word@.len() as int)),
        decreases word@.len() - i,
    {
        let ghost suf = word@.subrange(i as int, word@.len() as int);
        let n = word.unicode_len();
        if i == n {
            proof {
                assert(suf =~= Seq::<char>::empty());
            }
            self.is_end_of_word
        } else {
            let c = word.get_char(i);
            proof {
                assert(suf[0] == c);
            }
            match self.find_child(c) {
                None => false,
                Some(j) => {
                    proof {
                        Self::lemma_key_at(self.children@, j as int);
                        assert(suf.drop_first() =~= word@.subrange(
                            i + 1 as int,
                            word@.len() as int,
                        ));
                    }
                    self.children[j].1.contains_at(word, i + 1)
                },
            }
        }
    }

    /// Follows the edges for the characters of `word` from position `i` on,
    /// creating each missing edge, and marks the node reached as the end of a
    /// word. Afterwards the subtree stores exactly what it stored before plus
    /// that suffix of `word`; its paths are the old paths plus the prefixes of
    /// that suffix; and it has grown by one node per character of the suffix
    /// that was not already on a path.
    pub(crate) fn insert_at(&mut self, word: &str, i: usize)
        requires
            old(self).wf(),
            i <= word@.len(),
        ensures
            final(self).wf(),
            forall|w: Seq<char>|
                final(self).contains_word(w) <==> old(self).contains_word(w) || w
                    == word@.subrange(i as int, word@.len() as int),
            Self::paths_extended(
                *old(self),
                *final(self),
                word@.subrange(i as int, word@.len() as int),
            ),
            final(self).size() + old(self).reach_len(
                word@.subrange(i as int, word@.len() as int),
            ) == old(self).size() + word@.len() - i,
        decreases word@.len() - i,
    {
        let ghost suf = word@.subrange(i as int, word@.len() as int);
        let n = word.unicode_len();
        if i == n {
            self.is_end_of_word = true;
            proof {
                assert(suf =~= Seq::<char>::empty());
                assert forall|w: Seq<char>|
                    self.contains_word(w) <==> old(self).contains_word(w) || w == suf by {
                    if w.len() == 0 {
                        assert(w =~= suf);
                        assert(self.contains_word(w));
                    }
                }
                assert forall|p: Seq<char>|
                    #![trigger self.has_path(p)]
                    self.has_path(p) <==> old(self).has_path(p) || p.is_prefix_of(suf) by {
                    if p.len() == 0 {
                        assert(self.has_path(p));
                        assert(old(self).has_path(p));
                    } else {
                        assert(!p.is_prefix_of(suf));
                        assert(self.children@ == old(self).children@);
                        assert(self.has_path(p) == old(self).has_path(p));
                    }
                }
                assert(Self::paths_extended(*old(self), *self, suf));
            }
        } else {
            let c = word.get_char(i);
            let ghost suf1 = word@.subrange(i + 1 as int, word@.len() as int);
            proof {
                assert(suf[0] == c);
                assert(suf.drop_first() =~= suf1);
            }
            match self.find_child(c) {
                Some(j) => {
                    let ghost s0 = self.children@;
                    proof {
                        Self::lemma_key_at(s0, j as int);
                    }
                    let (c0, mut child) = self.children.swap_remove(j);
                    let ghost child0 = child;
                    child.insert_at(word, i + 1);
                    self.children.push((c0, child));
                    proof {
                        let s2 = self.children@;
                        let x = (c0, child);
                        Self::lemma_children_replace(s0, j as int, x);
                        assert(self.wf());
                        // One node per missing character was added below the child.
                        let upd = s0.update(j as int, s0.last());
                        Self::lemma_forest_size_update(s0, j as int, s0.last(), 0);
                        Self::lemma_forest_size_drop_last(upd, 0);
                        assert(upd.last() == s0.last());
                        Self::lemma_forest_size_push(upd.drop_last(), x, 0);
                        assert(old(self).reach_len(suf) == 1 + child0.reach_len(suf1));
                        assert(self.size() + old(self).reach_len(suf) == old(self).size()
                            + word@.len() - i);
                        // The stored words and the paths are as promised, edge by edge.
                        assert forall|w: Seq<char>|
                            self.contains_word(w) <==> old(self).contains_word(w) || w == suf by {
                            if w.len() == 0 {
                            } else {
                                let w1 = w.drop_first();
                                if w[0] == c {
                                    assert(self.contains_word(w) == child.contains_word(w1));
                                    assert(old(self).contains_word(w) == child0.contains_word(
                                        w1,
                                    ));
                                    if w1 == suf1 {
                                        Self::lemma_eq_by_head_tail(w, suf);
                                    }
                                    if w == suf {
                                        assert(w1 == suf.drop_first());
                                    }
                                } else {
                                    assert(w != suf);
                                }
                            }
                        }
                        assert forall|p: Seq<char>|
                            #![trigger self.has_path(p)]
                            self.has_path(p) <==> old(self).has_path(p) || p.is_prefix_of(suf) by {
                            if p.len() == 0 {
                                assert(self.has_path(p));
                                assert(old(self).has_path(p));
                            } else {
                                let p1 = p.drop_first();
                                if p[0] == c {
                                    assert(self.has_path(p) == child.has_path(p1));
                                    assert(old(self).has_path(p) == child0.has_path(p1));
                                    assert(p1.len() == p.len() - 1);
                                    assert(suf1.len() == suf.len() - 1);
                                    if p1.is_prefix_of(suf1) {
                                        let b = suf.subrange(0, p.len() as int);
                                        assert(b.drop_first() =~= suf1.subrange(
                                            0,
                                            p1.len() as int,
                                        ));
                                        Self::lemma_eq_by_head_tail(p, b);
                                        assert(p.is_prefix_of(suf));
                                    }
                                    if p.is_prefix_of(suf) {
                                        assert(p1 =~= suf1.subrange(0, p1.len() as int));
                                        assert(p1.is_prefix_of(suf1));
                                    }
                                } else {
                                    if p.is_prefix_of(suf) {
                                        assert(p[0] == suf[0]);
                                    }
                                    assert(self.has_path(p) == old(self).has_path(p));
                                }
                            }
                        }
                        assert(Self::paths_extended(*old(self), *self, suf));
                    }
                },
                None => {
                    let ghost s0 = self.children@;
                    let mut child = TrieNode::default();
                    let ghost child0 = child;
                    child.insert_at(word, i + 1);
                    self.children.push((c, child));
                    proof {
                        let s2 = self.children@;
                        let x = (c, child);
                        Self::lemma_children_add(s0, x);
                        assert forall|k: int| 0 <= k < s2.len() implies (#[trigger] s2[k]).1.wf() by {
                            if k < s0.len() {
                                assert(s2[k] == s0[k]);
                            } else {
                                assert(s2[k] == x);
                            }
                        }
                        assert(self.wf());
                        // The fresh chain below the new edge has one node per character.
                        Self::lemma_forest_size_push(s0, x, 0);
                        assert(old(self).reach_len(suf) == 0);
                        assert(child.size() == word@.len() - (i + 1));
                        assert(self.size() + old(self).reach_len(suf) == old(self).size()
                            + word@.len() - i);
                        assert forall|w: Seq<char>|
                            self.contains_word(w) <==> old(self).contains_word(w) || w == suf by {
                            if w.len() == 0 {
                            } else {
                                let w1 = w.drop_first();
                                if w[0] == c {
                                    assert(self.contains_word(w) == child.contains_word(w1));
                                    assert(!child0.contains_word(w1));
                                    assert(!old(self).contains_word(w));
                                    if w1 == suf1 {
                                        Self::lemma_eq_by_head_tail(w, suf);
                                    }
                                    if w == suf {
                                        assert(w1 == suf.drop_first());
                                    }
                                } else {
                                    assert(w != suf);
                                }
                            }
                        }
                        assert forall|p: Seq<char>|
                            #![trigger self.has_path(p)]
                            self.has_path(p) <==> old(self).has_path(p) || p.is_prefix_of(suf) by {
                            if p.len() == 0 {
                                assert(self.has_path(p));
                                assert(old(self).has_path(p));
                            } else {
                                let p1 = p.drop_first();
                                if p[0] == c {
                                    assert(self.has_path(p) == child.has_path(p1));
                                    assert(!child0.has_path(p1) || p1.len() == 0);
                                    assert(!old(self).has_path(p));
                                    assert(p1.len() == p.len() - 1);
                                    assert(suf1.len() == suf.len() - 1);
                                    if p1.is_prefix_of(suf1) {
                                        let b = suf.subrange(0, p.len() as int);
                                        assert(b.drop_first() =~= suf1.subrange(
                                            0,
                                            p1.len() as int,
                                        ));
                                        Self::lemma_eq_by_head_tail(p, b);
                                        assert(p.is_prefix_of(suf));
                                    }
                                    if p.is_prefix_of(suf) {
                                        assert(p1 =~= suf1.subrange(0, p1.len() as int));
                                        assert(p1.is_prefix_of(suf1));
                                    }
                                } else {
                                    if p.is_prefix_of(suf) {
                                        assert(p[0] == suf[0]);
                                    }
                                    assert(self.has_path(p) == old(self).has_path(p));
                                }
                            }
                        }
                        assert(Self::paths_extended(*old(self), *self, suf));
                    }
                },
            }
        }
    }

    /// The entry `entry` is `current` followed by a word stored below `n`
    /// whose path either ends at `n` itself or leaves `n` through one of the
    /// first `j` edges.
    pub open spec fn entry_through(
        n: TrieNode,
        current: Seq<char>,
        entry: Seq<char>,
        j: int,
    ) -> bool {
        exists|w: Seq<char>|
            n.contains_word(w) && (w.len() == 0 || Self::key_index(n.children@, w[0]) < j)
                && entry == current + w
    }

    /// Every entry of `ws` is `current` followed by a word stored below `n`
    /// through one of the first `j` edges, or ending at `n` itself.
    pub open spec fn entries_sound(
        n: TrieNode,
        current: Seq<char>,
        ws: Seq<String>,
        j: int,
    ) -> bool {
        forall|k: int|
            0 <= k < ws.len() ==> Self::entry_through(n, current, (#[trigger] ws[k])@, j)
    }

    /// `current` followed by `w` stands among the entries of `ws`.
    pub open spec fn written_out(current: Seq<char>, ws: Seq<String>, w: Seq<char>) -> bool {
        exists|k: int| 0 <= k < ws.len() && (#[trigger] ws[k])@ == current + w
    }

    /// Every word stored below `n` through one of the first `j` edges, or
    /// ending at `n` itself, stands among the entries of `ws`.
    pub open spec fn entries_complete(
        n: TrieNode,
        current: Seq<char>,
        ws: Seq<String>,
        j: int,
    ) -> bool {
        forall|w: Seq<char>|
            #![trigger n.contains_word(w)]
            n.contains_word(w) && (w.len() == 0 || Self::key_index(n.children@, w[0]) < j)
                ==> Self::written_out(current, ws, w)
    }

    /// The entries of `ws` are pairwise distinct strings.
    pub open spec fn entries_distinct(ws: Seq<String>) -> bool {
        forall|k1: int, k2: int|
            0 <= k1 < k2 < ws.len() ==> (#[trigger] ws[k1])@ != (#[trigger] ws[k2])@
    }

    /// One step of writing out suggestions: soundness is kept when the words
    /// of the child at index `j` are appended.
    proof fn lemma_suggestions_sound_step(
        n: TrieNode,
        j: int,
        current: Seq<char>,
        pref: Seq<char>,
        wb: Seq<String>,
        cws: Seq<String>,
    )
        requires
            n.wf(),
            0 <= j < n.children@.len(),
            pref == current.push(n.children@[j].0),
            Self::entries_sound(n, current, wb, j),
            forall|k: int|
                0 <= k < cws.len() ==> n.children@[j].1.suggested(pref, (#[trigger] cws[k])@),
        ensures
            Self::entries_sound(n, current, wb + cws, j + 1),
    {
        let s = n.children@;
        let c = s[j].0;
        let child = s[j].1;
        Self::lemma_key_at(s, j);
        assert forall|k: int|
            0 <= k < (wb + cws).len() implies Self::entry_through(
            n,
            current,
            (#[trigger] (wb + cws)[k])@,
            j + 1,
        ) by {
            if k < wb.len() {
                assert((wb + cws)[k] == wb[k]);
                assert(Self::entry_through(n, current, wb[k]@, j));
                let w = choose|w: Seq<char>|
                    n.contains_word(w) && (w.len() == 0 || Self::key_index(n.children@, w[0])
                        < j) && wb[k]@ == current + w;
                assert(n.contains_word(w) && (w.len() == 0 || Self::key_index(s, w[0]) < j + 1)
                    && (wb + cws)[k]@ == current + w);
            } else {
                let k1 = k - wb.len();
                assert((wb + cws)[k] == cws[k1]);
                assert(child.suggested(pref, cws[k1]@));
                let w1 = choose|w1: Seq<char>|
                    child.contains_word(w1) && cws[k1]@ == pref + w1;
                let v = seq![c] + w1;
                Self::lemma_contains_word_cons(n, c, w1);
                assert(current + v =~= pref + w1);
                assert(v[0] == c);
                assert(n.contains_word(v) && (v.len() == 0 || Self::key_index(s, v[0]) < j + 1)
                    && (wb + cws)[k]@ == current + v);
            }
        }
        assert(Self::entries_sound(n, current, wb + cws, j + 1));
    }

    /// One step of writing out suggestions: completeness now reaches the
    /// edge at index `j` once the words of its child are appended.
    proof fn lemma_suggestions_complete_step(
        n: TrieNode,
        j: int,
        current: Seq<char>,
        pref: Seq<char>,
        wb: Seq<String>,
        cws: Seq<String>,
    )
        requires
            n.wf(),
            0 <= j < n.children@.len(),
            pref == current.push(n.children@[j].0),
            Self::entries_complete(n, current, wb, j),
            forall|w1: Seq<char>|
                #[trigger] n.children@[j].1.contains_word(w1) ==> Self::written_out(
                    pref,
                    cws,
                    w1,
                ),
        ensures
            Self::entries_complete(n, current, wb + cws, j + 1),
    {
        let s = n.children@;
        let c = s[j].0;
        let child = s[j].1;
        Self::lemma_key_at(s, j);
        assert forall|w: Seq<char>|
            #![trigger n.contains_word(w)]
            n.contains_word(w) && (w.len() == 0 || Self::key_index(s, w[0]) < j
                + 1) implies Self::written_out(current, wb + cws, w) by {
            if w.len() == 0 || Self::key_index(s, w[0]) < j {
                assert(Self::written_out(current, wb, w));
                let k = choose|k: int|
                    0 <= k < wb.len() && (#[trigger] wb[k])@ == current + w;
                assert((wb + cws)[k] == wb[k]);
                assert((wb + cws)[k]@ == current + w);
            } else {
                assert(Self::key_index(s, w[0]) == j);
                assert(w[0] == c);
                let w1 = w.drop_first();
                assert(child.contains_word(w1));
                assert(Self::written_out(pref, cws, w1));
                let k1 = choose|k1: int|
                    0 <= k1 < cws.len() && (#[trigger] cws[k1])@ == pref + w1;
                let k = wb.len() + k1;
                assert((wb + cws)[k] == cws[k1]);
                assert(current + w =~= pref + w1);
                assert((wb + cws)[k]@ == current + w);
            }
        }
        assert(Self::entries_complete(n, current, wb + cws, j + 1));
    }

    /// One step of writing out suggestions: the entries stay pairwise
    /// distinct when the words of the child at index `j` are appended — the
    /// earlier entries go through earlier edges or end at the node itself,
    /// the new ones through the edge at index `j`, and the child hands over
    /// each of its words once.
    proof fn lemma_suggestions_distinct_step(
        n: TrieNode,
        j: int,
        current: Seq<char>,
        pref: Seq<char>,
        wb: Seq<String>,
        cws: Seq<String>,
    )
        requires
            n.wf(),
            0 <= j < n.children@.len(),
            pref == current.push(n.children@[j].0),
            Self::entries_sound(n, current, wb, j),
            forall|k: int|
                0 <= k < cws.len() ==> n.children@[j].1.suggested(pref, (#[trigger] cws[k])@),
            Self::entries_distinct(wb),
            Self::entries_distinct(cws),
        ensures
            Self::entries_distinct(wb + cws),
    {
        let s = n.children@;
        let c = s[j].0;
        let child = s[j].1;
        Self::lemma_key_at(s, j);
        assert forall|k1: int, k2: int|
            0 <= k1 < k2 < (wb + cws).len() implies (#[trigger] (wb + cws)[k1])@ != (#[trigger] (
        wb + cws
        )[k2])@ by {
            if k2 < wb.len() {
                assert((wb + cws)[k1] == wb[k1]);
                assert((wb + cws)[k2] == wb[k2]);
            } else if k1 >= wb.len() {
                assert((wb + cws)[k1] == cws[k1 - wb.len()]);
                assert((wb + cws)[k2] == cws[k2 - wb.len()]);
            } else {
                assert((wb + cws)[k1] == wb[k1]);
                assert((wb + cws)[k2] == cws[k2 - wb.len()]);
                assert(Self::entry_through(n, current, wb[k1]@, j));
                let w_old = choose|w: Seq<char>|
                    n.contains_word(w) && (w.len() == 0 || Self::key_index(n.children@, w[0])
                        < j) && wb[k1]@ == current + w;
                assert(child.suggested(pref, cws[k2 - wb.len()]@));
                let w1 = choose|w1: Seq<char>|
                    child.contains_word(w1) && cws[k2 - wb.len()]@ == pref + w1;
                let v = seq![c] + w1;
                assert(current + v =~= pref + w1);
                assert(v[0] == c);
                if (wb + cws)[k1]@ == (wb + cws)[k2]@ {
                    Self::lemma_prepend_cancel(current, w_old, v);
                    assert(w_old.len() > 0 && w_old[0] == c);
                    assert(Self::key_index(s, c) == j);
                    assert(false);
                }
            }
        }
        assert(Self::entries_distinct(wb + cws));
    }

    /// Get all possible words for a given node: every string formed by
    /// `current` followed by a word stored in the subtree rooted at `self`,
    /// each stored word exactly once, in no promised order.
    pub fn get_suggestions(&self, current: &str) -> (r: Vec<String>)
        requires
            self.wf(),
        ensures
            forall|k: int| 0 <= k < r@.len() ==> self.suggested(current@, (#[trigger] r@[k])@),
            forall|w: Seq<char>|
                #[trigger] self.contains_word(w) ==> Self::written_out(current@, r@, w),
            Self::entries_distinct(r@),
        decreases *self,
    {
        let mut words: Vec<String> = Vec::new();
        if self.is_end_of_word {
            let w0 = current.to_owned();
            words.push(w0);
            proof {
                let e = Seq::<char>::empty();
                assert(current@ + e =~= current@);
                assert(self.contains_word(e) && words@[0]@ == current@ + e);
            }
        }
        proof {
            let e = Seq::<char>::empty();
            assert forall|k: int|
                0 <= k < words@.len() implies Self::entry_through(
                *self,
                current@,
                (#[trigger] words@[k])@,
                0,
            ) by {
                assert(self.contains_word(e) && (e.len() == 0 || Self::key_index(
                    self.children@,
                    e[0],
                ) < 0) && words@[k]@ == current@ + e);
            }
            assert(Self::entries_sound(*self, current@, words@, 0));
            assert forall|w: Seq<char>|
                #![trigger self.contains_word(w)]
                self.contains_word(w) && (w.len() == 0 || Self::key_index(self.children@, w[0])
                    < 0) implies Self::written_out(current@, words@, w) by {
                assert(w.len() == 0);
                assert(w =~= e);
                assert(words@[0]@ == current@ + w);
            }
            assert(Self::entries_complete(*self, current@, words@, 0));
        }
        let mut j: usize = 0;
        while j < self.children.len()
            invariant
                self.wf(),
                j <= self.children@.len(),
                Self::entries_sound(*self, current@, words@, j as int),
                Self::entries_complete(*self, current@, words@, j as int),
                Self::entries_distinct(words@),
            decreases self.children@.len() - j,
        {
            let c = self.children[j].0;
            let mut pref = current.to_owned();
            push_char(&mut pref, c);
            let child_ref = &self.children[j].1;
            let mut child_words = child_ref.get_suggestions(pref.as_str());
            let ghost words_before = words@;
            let ghost cws = child_words@;
            words.append(&mut child_words);
            proof {
                assert(pref@ == current@.push(c));
                assert(words@ == words_before + cws);
                Self::lemma_suggestions_sound_step(
                    *self,
                    j as int,
                    current@,
                    pref@,
                    words_before,
                    cws,
                );
                Self::lemma_suggestions_complete_step(
                    *self,
                    j as int,
                    current@,
                    pref@,
                    words_before,
                    cws,
                );
                Self::lemma_suggestions_distinct_step(
                    *self,
                    j as int,
                    current@,
                    pref@,
                    words_before,
                    cws,
                );
            }
            j += 1;
        }
        proof {
            // The words reachable from this node all leave through one of
            // its edges or end here, so the loop has written every one out.
            assert forall|k: int|
                0 <= k < words@.len() implies self.suggested(
                current@,
                (#[trigger] words@[k])@,
            ) by {
                assert(Self::entry_through(*self, current@, (words@[k])@, j as int));
                let w = choose|w: Seq<char>|
                    self.contains_word(w) && (w.len() == 0 || Self::key_index(
                        self.children@,
                        w[0],
                    ) < j) && (words@[k])@ == current@ + w;
                assert(self.contains_word(w) && words@[k]@ == current@ + w);
            }
            assert forall|w: Seq<char>|
                #[trigger] self.contains_word(w) implies Self::written_out(
                current@,
                words@,
                w,
            ) by {
                if w.len() > 0 {
                    assert(Self::has_key(self.children@, w[0]));
                }
            }
        }
        words
    }
}

/// Relies on String::push: appends the given character to the end of
/// the string.
#[verifier::external_body]
fn push_char(s: &mut String, c: char)
    ensures
        final(s)@ == old(s)@.push(c),
{
    s.push(c);
}

impl Default for TrieNode {
    /// A fresh node: it ends no word and has no children.
    fn default() -> (r: TrieNode)
        ensures
            r.wf(),
            !r.is_end_of_word,
            r.children@.len() == 0,
            r.size() == 0,
            forall|w: Seq<char>| !r.contains_word(w),
            forall|w: Seq<char>| w.len() > 0 ==> !r.has_path(w),
            forall|w: Seq<char>| r.reach_len(w) == 0,
    {
        let r = TrieNode { is_end_of_word: false, children: Vec::new() };
        proof {
            Self::lemma_bare_node(r);
        }
        r
    }
}

} // verus!
