use vstd::prelude::*;

verus! {

/// One node of the prefix tree: the character it stands for, whether a
/// dictionary entry ends exactly here, and the indices of its children
/// in the arena.
pub struct TrieNode {
    character: char,
    is_word_end: bool,
    children: Vec<usize>,
}

/// A prefix tree over characters, stored as an arena of nodes.
/// Node 0 is the root; a child always has a larger index than its parent.
pub struct Trie {
    nodes: Vec<TrieNode>,
}

impl Trie {
    /// Well-formed arena: the root exists, every child index points past its
    /// parent and into the arena, the children of one node carry distinct
    /// characters, and no node is the child of two parents.
    pub closed spec fn wf(self) -> bool {
        &&& self.nodes.len() >= 1
        &&& forall|i: int, k: int|
            0 <= i < self.nodes.len() && 0 <= k < self.nodes[i].children.len()
                ==> i < #[trigger] self.nodes[i].children[k] < self.nodes.len()
        &&& forall|i: int, k1: int, k2: int|
            0 <= i < self.nodes.len() && 0 <= k1 < self.nodes[i].children.len()
                && 0 <= k2 < self.nodes[i].children.len() && k1 != k2
                ==> self.nodes[#[trigger] self.nodes[i].children[k1] as int].character
                    != self.nodes[#[trigger] self.nodes[i].children[k2] as int].character
        &&& forall|i1: int, k1: int, i2: int, k2: int|
            0 <= i1 < self.nodes.len() && 0 <= k1 < self.nodes[i1].children.len()
                && 0 <= i2 < self.nodes.len() && 0 <= k2 < self.nodes[i2].children.len()
                && #[trigger] self.nodes[i1].children[k1] == #[trigger] self.nodes[i2].children[k2]
                ==> i1 == i2 && k1 == k2
    }

    /// Node `j` is a child of node `i` and carries the character `c`.
    pub closed spec fn is_child_with_char(self, i: int, c: char, j: int) -> bool {
        &&& 0 <= j < self.nodes.len()
        &&& self.nodes[j].character == c
        &&& exists|k: int|
            0 <= k < self.nodes[i].children.len() && #[trigger] self.nodes[i].children[k] == j
    }

    /// Walking the characters of `w` from node `i` follows child edges and
    /// ends at node `e`.
    pub closed spec fn reaches(self, i: int, w: Seq<char>, e: int) -> bool
        decreases w.len(),
    {
        if w.len() == 0 {
            e == i
        } else {
            exists|j: int|
                #[trigger] self.is_child_with_char(i, w[0], j) && self.reaches(
                    j,
                    w.drop_first(),
                    e,
                )
        }
    }

    /// The subtree rooted at node `i` holds `w`: the walk of `w` succeeds and
    /// ends at a node where a dictionary entry terminates.
    pub closed spec fn node_contains(self, i: int, w: Seq<char>) -> bool {
        exists|e: int|
            0 <= e < self.nodes.len() && #[trigger] self.reaches(i, w, e)
                && self.nodes[e].is_word_end
    }

    /// The trie holds `w` as a complete dictionary entry.
    pub open spec fn contains_word(self, w: Seq<char>) -> bool {
        self.node_contains(0, w)
    }

    /// Every walk stays inside the arena and moves to strictly larger node
    /// indices, so a non-empty walk never returns to its starting node.
    proof fn lemma_reaches_range(self, i: int, w: Seq<char>, e: int)
        requires
            self.wf(),
            0 <= i < self.nodes.len(),
            self.reaches(i, w, e),
        ensures
            0 <= e < self.nodes.len(),
            i <= e,
            w.len() > 0 ==> i < e,
        decreases w.len(),
    {
        if w.len() > 0 {
            let j = choose|j: int| #[trigger] self.is_child_with_char(i, w[0], j) && self.reaches(
                j,
                w.drop_first(),
                e,
            );
            self.lemma_reaches_range(j, w.drop_first(), e);
        }
    }

    /// In a well-formed trie the walk of a string from a node is
    /// deterministic: it can end at only one node.
    proof fn lemma_reaches_deterministic(self, i: int, w: Seq<char>, e1: int, e2: int)
        requires
            self.wf(),
            0 <= i < self.nodes.len(),
            self.reaches(i, w, e1),
            self.reaches(i, w, e2),
        ensures
            e1 == e2,
        decreases w.len(),
    {
        if w.len() > 0 {
            let j1 = choose|j: int| #[trigger] self.is_child_with_char(i, w[0], j) && self.reaches(
                j,
                w.drop_first(),
                e1,
            );
            let j2 = choose|j: int| #[trigger] self.is_child_with_char(i, w[0], j) && self.reaches(
                j,
                w.drop_first(),
                e2,
            );
            let k1 = choose|k: int|
                0 <= k < self.nodes[i].children.len() && self.nodes[i].children[k] == j1;
            let k2 = choose|k: int|
                0 <= k < self.nodes[i].children.len() && self.nodes[i].children[k] == j2;
            assert(j1 == j2);
            self.lemma_reaches_deterministic(j1, w.drop_first(), e1, e2);
        }
    }

    /// Two walks compose: following `u` and then `v` is following `u + v`.
    proof fn lemma_reaches_concat(self, i: int, u: Seq<char>, v: Seq<char>, mid: int, e: int)
        requires
            self.reaches(i, u, mid),
            self.reaches(mid, v, e),
        ensures
            self.reaches(i, u + v, e),
        decreases u.len(),
    {
        if u.len() == 0 {
            assert(u + v =~= v);
        } else {
            let j = choose|j: int| #[trigger] self.is_child_with_char(i, u[0], j) && self.reaches(
                j,
                u.drop_first(),
                mid,
            );
            self.lemma_reaches_concat(j, u.drop_first(), v, mid, e);
            assert((u + v).drop_first() =~= u.drop_first() + v);
            assert((u + v)[0] == u[0]);
        }
    }

    /// A walk of `u + v` splits at the boundary: some node is reached by `u`
    /// and the rest of the walk starts there.
    proof fn lemma_reaches_split(self, i: int, u: Seq<char>, v: Seq<char>, e: int) -> (mid: int)
        requires
            self.reaches(i, u + v, e),
        ensures
            self.reaches(i, u, mid),
            self.reaches(mid, v, e),
        decreases u.len(),
    {
        if u.len() == 0 {
            assert(u + v =~= v);
            i
        } else {
            assert((u + v)[0] == u[0]);
            let j = choose|j: int| #[trigger] self.is_child_with_char(i, (u + v)[0], j) && self.reaches(
                j,
                (u + v).drop_first(),
                e,
            );
            assert((u + v).drop_first() =~= u.drop_first() + v);
            let mid = self.lemma_reaches_split(j, u.drop_first(), v, e);
            mid
        }
    }

    /// A non-empty walk decomposes at its end: the reached node is a child,
    /// carrying the last character, of the node reached by the rest.
    proof fn lemma_reaches_snoc(self, i: int, w: Seq<char>, e: int) -> (mid: int)
        requires
            self.reaches(i, w, e),
            w.len() > 0,
        ensures
            self.reaches(i, w.drop_last(), mid),
            self.is_child_with_char(mid, w.last(), e),
    {
        assert(w =~= w.drop_last() + seq![w.last()]);
        let mid = self.lemma_reaches_split(i, w.drop_last(), seq![w.last()], e);
        let j = choose|j: int|
            #[trigger] self.is_child_with_char(mid, seq![w.last()][0], j) && self.reaches(
                j,
                seq![w.last()].drop_first(),
                e,
            );
        assert(seq![w.last()].drop_first().len() == 0);
        mid
    }

    /// Paths from the root are unique: in a well-formed trie no node is
    /// reached from the root by two different strings.
    proof fn lemma_root_path_unique(self, u: Seq<char>, v: Seq<char>, e: int)
        requires
            self.wf(),
            self.reaches(0, u, e),
            self.reaches(0, v, e),
        ensures
            u == v,
        decreases u.len(),
    {
        self.lemma_reaches_range(0, u, e);
        self.lemma_reaches_range(0, v, e);
        if u.len() == 0 {
            if v.len() > 0 {
                assert(false);
            }
            assert(u =~= v);
        } else {
            assert(e > 0);
            if v.len() == 0 {
                assert(false);
            }
            let mu = self.lemma_reaches_snoc(0, u, e);
            let mv = self.lemma_reaches_snoc(0, v, e);
            let ku = choose|k: int|
                0 <= k < self.nodes[mu].children.len() && self.nodes[mu].children[k] == e;
            let kv = choose|k: int|
                0 <= k < self.nodes[mv].children.len() && self.nodes[mv].children[k] == e;
            self.lemma_reaches_range(0, u.drop_last(), mu);
            self.lemma_reaches_range(0, v.drop_last(), mv);
            assert(mu == mv);
            assert(u.last() == self.nodes[e].character);
            assert(v.last() == self.nodes[e].character);
            self.lemma_root_path_unique(u.drop_last(), v.drop_last(), mu);
            assert(u =~= u.drop_last() + seq![u.last()]);
            assert(v =~= v.drop_last() + seq![v.last()]);
        }
    }

    /// The freshly pushed node is inert: nothing is a word below a node with
    /// no children and no word-end mark.
    proof fn lemma_dead_node(self, m: int)
        requires
            0 <= m < self.nodes.len(),
            !self.nodes[m].is_word_end,
            self.nodes[m].children.len() == 0,
        ensures
            forall|s: Seq<char>| !self.node_contains(m, s),
    {
        assert forall|s: Seq<char>| !self.node_contains(m, s) by {
            if self.node_contains(m, s) {
                let e = choose|e: int|
                    0 <= e < self.nodes.len() && #[trigger] self.reaches(m, s, e)
                        && self.nodes[e].is_word_end;
                if s.len() == 0 {
                    assert(e == m);
                } else {
                    let j = choose|j: int|
                        #[trigger] self.is_child_with_char(m, s[0], j) && self.reaches(
                            j,
                            s.drop_first(),
                            e,
                        );
                    assert(false);
                }
            }
        }
    }

    /// Appending a fresh leaf and linking it as a new child, with a character
    /// no sibling carries, keeps the trie well formed, changes no walk among
    /// the old nodes, and makes no new word.
    proof fn lemma_grow_preserves(self, other: Trie, cur: int, c: char)
        requires
            self.wf(),
            0 <= cur < self.nodes.len(),
            forall|j: int| !self.is_child_with_char(cur, c, j),
            other.nodes.len() == self.nodes.len() + 1,
            other.nodes[self.nodes.len() as int].character == c,
            !other.nodes[self.nodes.len() as int].is_word_end,
            other.nodes[self.nodes.len() as int].children.len() == 0,
            other.nodes[cur].children@ == self.nodes[cur].children@.push(
                self.nodes.len() as usize,
            ),
            other.nodes[cur].character == self.nodes[cur].character,
            other.nodes[cur].is_word_end == self.nodes[cur].is_word_end,
            forall|x: int| 0 <= x < self.nodes.len() && x != cur ==> other.nodes[x]
                == self.nodes[x],
        ensures
            other.wf(),
            other.is_child_with_char(cur, c, self.nodes.len() as int),
            forall|i: int, w: Seq<char>, e: int|
                0 <= i < self.nodes.len() && #[trigger] self.reaches(i, w, e) ==> other.reaches(
                    i,
                    w,
                    e,
                ),
            forall|w: Seq<char>| other.contains_word(w) == self.contains_word(w),
    {
        let m = self.nodes.len() as int;
        assert(other.wf()) by {
            assert forall|i: int, k: int|
                0 <= i < other.nodes.len() && 0 <= k < other.nodes[i].children.len()
                    implies i < #[trigger] other.nodes[i].children[k] < other.nodes.len() by {
                if i == cur && k == self.nodes[cur].children.len() {
                } else if i != m {
                    assert(other.nodes[i].children[k] == self.nodes[i].children[k]);
                }
            }
            assert forall|i: int, k1: int, k2: int|
                0 <= i < other.nodes.len() && 0 <= k1 < other.nodes[i].children.len()
                    && 0 <= k2 < other.nodes[i].children.len() && k1 != k2
                    implies other.nodes[#[trigger] other.nodes[i].children[k1] as int].character
                    != other.nodes[#[trigger] other.nodes[i].children[k2] as int].character by {
                if i != m {
                    let kn = self.nodes[cur].children.len() as int;
                    if i == cur && k1 == kn {
                        let j2 = self.nodes[i].children[k2 as int] as int;
                        assert(j2 < m);
                        if other.nodes[j2].character == c {
                            assert(self.is_child_with_char(cur, c, j2));
                        }
                    } else if i == cur && k2 == kn {
                        let j1 = self.nodes[i].children[k1 as int] as int;
                        assert(j1 < m);
                        if other.nodes[j1].character == c {
                            assert(self.is_child_with_char(cur, c, j1));
                        }
                    } else {
                        assert(other.nodes[i].children[k1] == self.nodes[i].children[k1]);
                        assert(other.nodes[i].children[k2] == self.nodes[i].children[k2]);
                        assert(self.nodes[i].children[k1] < m);
                        assert(self.nodes[i].children[k2] < m);
                    }
                }
            }
            assert forall|i1: int, k1: int, i2: int, k2: int|
                0 <= i1 < other.nodes.len() && 0 <= k1 < other.nodes[i1].children.len()
                    && 0 <= i2 < other.nodes.len() && 0 <= k2 < other.nodes[i2].children.len()
                    && #[trigger] other.nodes[i1].children[k1] == #[trigger] other.nodes[i2].children[k2]
                    implies i1 == i2 && k1 == k2 by {
                let kn = self.nodes[cur].children.len() as int;
                let new1 = i1 == cur && k1 == kn;
                let new2 = i2 == cur && k2 == kn;
                if new1 && new2 {
                } else if new1 || new2 {
                    if new1 {
                        assert(i2 != m);
                        assert(other.nodes[i2].children[k2] == self.nodes[i2].children[k2]);
                        assert(self.nodes[i2].children[k2] < m);
                    } else {
                        assert(i1 != m);
                        assert(other.nodes[i1].children[k1] == self.nodes[i1].children[k1]);
                        assert(self.nodes[i1].children[k1] < m);
                    }
                } else {
                    assert(i1 != m && i2 != m);
                    assert(other.nodes[i1].children[k1] == self.nodes[i1].children[k1]);
                    assert(other.nodes[i2].children[k2] == self.nodes[i2].children[k2]);
                }
            }
        }
        assert(other.is_child_with_char(cur, c, m)) by {
            assert(other.nodes[cur].children[self.nodes[cur].children.len() as int] == m as usize);
        }
        assert forall|i: int, w: Seq<char>, e: int|
            0 <= i < self.nodes.len() && #[trigger] self.reaches(i, w, e) implies other.reaches(
            i,
            w,
            e,
        ) by {
            self.lemma_grow_monotone(other, cur, c, i, w, e);
        }
        assert forall|w: Seq<char>| other.contains_word(w) == self.contains_word(w) by {
            if self.contains_word(w) {
                let e = choose|e: int|
                    0 <= e < self.nodes.len() && #[trigger] self.reaches(0, w, e)
                        && self.nodes[e].is_word_end;
                self.lemma_grow_monotone(other, cur, c, 0, w, e);
                assert(other.nodes[e].is_word_end);
                assert(other.contains_word(w));
            }
            if other.contains_word(w) {
                let e = choose|e: int|
                    0 <= e < other.nodes.len() && #[trigger] other.reaches(0, w, e)
                        && other.nodes[e].is_word_end;
                self.lemma_grow_reverse(other, cur, c, 0, w, e);
                assert(self.contains_word(w));
            }
        }
    }

    /// Old walks survive the growth step: nothing was removed.
    proof fn lemma_grow_monotone(self, other: Trie, cur: int, c: char, i: int, w: Seq<char>, e: int)
        requires
            self.wf(),
            0 <= cur < self.nodes.len(),
            other.nodes.len() == self.nodes.len() + 1,
            other.nodes[cur].children@ == self.nodes[cur].children@.push(
                self.nodes.len() as usize,
            ),
            other.nodes[cur].character == self.nodes[cur].character,
            other.nodes[cur].is_word_end == self.nodes[cur].is_word_end,
            forall|x: int| 0 <= x < self.nodes.len() && x != cur ==> other.nodes[x]
                == self.nodes[x],
            0 <= i < self.nodes.len(),
            self.reaches(i, w, e),
        ensures
            other.reaches(i, w, e),
        decreases w.len(),
    {
        if w.len() > 0 {
            let j = choose|j: int| #[trigger] self.is_child_with_char(i, w[0], j) && self.reaches(
                j,
                w.drop_first(),
                e,
            );
            let k = choose|k: int|
                0 <= k < self.nodes[i].children.len() && #[trigger] self.nodes[i].children[k] == j;
            assert(other.nodes[i].children[k] == j);
            assert(other.nodes[j].character == c || other.nodes[j].character
                == self.nodes[j].character);
            assert(other.is_child_with_char(i, w[0], j));
            self.lemma_grow_monotone(other, cur, c, j, w.drop_first(), e);
        }
    }

    /// A walk in the grown trie that ends at a word-end mark never enters the
    /// fresh leaf, so the same walk already existed before the growth step.
    proof fn lemma_grow_reverse(self, other: Trie, cur: int, c: char, i: int, w: Seq<char>, e: int)
        requires
            self.wf(),
            0 <= cur < self.nodes.len(),
            other.nodes.len() == self.nodes.len() + 1,
            !other.nodes[self.nodes.len() as int].is_word_end,
            other.nodes[self.nodes.len() as int].children.len() == 0,
            other.nodes[cur].children@ == self.nodes[cur].children@.push(
                self.nodes.len() as usize,
            ),
            other.nodes[cur].character == self.nodes[cur].character,
            other.nodes[cur].is_word_end == self.nodes[cur].is_word_end,
            forall|x: int| 0 <= x < self.nodes.len() && x != cur ==> other.nodes[x]
                == self.nodes[x],
            0 <= i < self.nodes.len(),
            other.reaches(i, w, e),
            0 <= e < other.nodes.len(),
            other.nodes[e].is_word_end,
        ensures
            self.reaches(i, w, e),
            0 <= e < self.nodes.len(),
            self.nodes[e].is_word_end,
        decreases w.len(),
    {
        let m = self.nodes.len() as int;
        if w.len() == 0 {
            assert(e == i);
        } else {
            let j = choose|j: int| #[trigger] other.is_child_with_char(i, w[0], j)
                && other.reaches(j, w.drop_first(), e);
            if j == m {
                other.lemma_dead_node(m);
                assert(other.node_contains(m, w.drop_first()));
                assert(false);
            } else {
                let k = choose|k: int|
                    0 <= k < other.nodes[i].children.len() && #[trigger] other.nodes[i].children[k]
                        == j;
                assert(0 <= k < self.nodes[i].children.len()) by {
                    if i == cur && k == self.nodes[cur].children.len() {
                        assert(j == m);
                    }
                }
                assert(self.nodes[i].children[k] == j);
                assert(self.is_child_with_char(i, w[0], j));
                self.lemma_grow_reverse(other, cur, c, j, w.drop_first(), e);
            }
        }
    }

    /// Two tries with the same nodes, edges and characters walk alike;
    /// word-end marks play no part in a walk.
    proof fn lemma_reaches_same_structure(self, other: Trie, i: int, w: Seq<char>, e: int)
        requires
            0 <= i < self.nodes.len(),
            other.nodes.len() == self.nodes.len(),
            forall|x: int| 0 <= x < self.nodes.len() ==> #[trigger] other.nodes[x].children@
                == self.nodes[x].children@ && other.nodes[x].character == self.nodes[x].character,
            self.reaches(i, w, e),
        ensures
            other.reaches(i, w, e),
        decreases w.len(),
    {
        if w.len() > 0 {
            let j = choose|j: int| #[trigger] self.is_child_with_char(i, w[0], j) && self.reaches(
                j,
                w.drop_first(),
                e,
            );
            let k = choose|k: int|
                0 <= k < self.nodes[i].children.len() && #[trigger] self.nodes[i].children[k] == j;
            assert(other.nodes[i].children[k] == j);
            assert(other.nodes[j].children@ == self.nodes[j].children@);
            assert(other.is_child_with_char(i, w[0], j));
            self.lemma_reaches_same_structure(other, j, w.drop_first(), e);
        }
    }

    /// Marking one node as a word end adds exactly the words whose walk from
    /// the root ends at that node, and removes none.
    proof fn lemma_set_word_end(self, other: Trie, cur: int)
        requires
            self.wf(),
            0 <= cur < self.nodes.len(),
            other.nodes.len() == self.nodes.len(),
            forall|x: int| 0 <= x < self.nodes.len() && x != cur ==> #[trigger] other.nodes[x]
                == self.nodes[x],
            other.nodes[cur].character == self.nodes[cur].character,
            other.nodes[cur].children@ == self.nodes[cur].children@,
            other.nodes[cur].is_word_end,
        ensures
            other.wf(),
            forall|w: Seq<char>| other.contains_word(w) <==> (self.contains_word(w)
                || self.reaches(0, w, cur)),
    {
        assert forall|x: int| 0 <= x < self.nodes.len() implies #[trigger] other.nodes[x].children@
            == self.nodes[x].children@ && other.nodes[x].character == self.nodes[x].character by {}
        assert(other.wf()) by {
            assert forall|i: int, k: int|
                0 <= i < other.nodes.len() && 0 <= k < other.nodes[i].children.len()
                    implies i < #[trigger] other.nodes[i].children[k] < other.nodes.len() by {
                assert(other.nodes[i].children[k] == self.nodes[i].children[k]);
            }
            assert forall|i: int, k1: int, k2: int|
                0 <= i < other.nodes.len() && 0 <= k1 < other.nodes[i].children.len()
                    && 0 <= k2 < other.nodes[i].children.len() && k1 != k2
                    implies other.nodes[#[trigger] other.nodes[i].children[k1] as int].character
                    != other.nodes[#[trigger] other.nodes[i].children[k2] as int].character by {
                assert(other.nodes[i].children[k1] == self.nodes[i].children[k1]);
                assert(other.nodes[i].children[k2] == self.nodes[i].children[k2]);
                let j1 = self.nodes[i].children[k1] as int;
                let j2 = self.nodes[i].children[k2] as int;
                assert(other.nodes[j1].character == self.nodes[j1].character);
                assert(other.nodes[j2].character == self.nodes[j2].character);
            }
            assert forall|i1: int, k1: int, i2: int, k2: int|
                0 <= i1 < other.nodes.len() && 0 <= k1 < other.nodes[i1].children.len()
                    && 0 <= i2 < other.nodes.len() && 0 <= k2 < other.nodes[i2].children.len()
                    && #[trigger] other.nodes[i1].children[k1] == #[trigger] other.nodes[i2].children[k2]
                    implies i1 == i2 && k1 == k2 by {
                assert(other.nodes[i1].children[k1] == self.nodes[i1].children[k1]);
                assert(other.nodes[i2].children[k2] == self.nodes[i2].children[k2]);
            }
        }
        assert forall|w: Seq<char>| other.contains_word(w) <==> (self.contains_word(w)
            || self.reaches(0, w, cur)) by {
            if other.contains_word(w) {
                let e = choose|e: int|
                    0 <= e < other.nodes.len() && #[trigger] other.reaches(0, w, e)
                        && other.nodes[e].is_word_end;
                other.lemma_reaches_same_structure(self, 0, w, e);
                if e == cur {
                    assert(self.reaches(0, w, cur));
                } else {
                    assert(self.nodes[e].is_word_end);
                    assert(self.contains_word(w));
                }
            }
            if self.contains_word(w) {
                let e = choose|e: int|
                    0 <= e < self.nodes.len() && #[trigger] self.reaches(0, w, e)
                        && self.nodes[e].is_word_end;
                self.lemma_reaches_same_structure(other, 0, w, e);
                assert(other.nodes[e].is_word_end);
                assert(other.contains_word(w));
            }
            if self.reaches(0, w, cur) {
                self.lemma_reaches_same_structure(other, 0, w, cur);
                assert(other.nodes[cur].is_word_end);
                assert(other.contains_word(w));
            }
        }
    }

    /// An index with only a root node holds no word at all.
    proof fn lemma_empty(self)
        requires
            self.nodes.len() == 1,
            !self.nodes[0].is_word_end,
            self.nodes[0].children.len() == 0,
        ensures
            forall|w: Seq<char>| !self.contains_word(w),
    {
        self.lemma_dead_node(0);
    }

    /// An empty dictionary index: a root node and nothing else. It is well
    /// formed and holds no word.
    pub fn new() -> (t: Trie)
        ensures
            t.wf(),
            forall|w: Seq<char>| !t.contains_word(w),
    {
        let root = TrieNode { character: ' ', is_word_end: false, children: Vec::new() };
        let mut nodes: Vec<TrieNode> = Vec::new();
        nodes.push(root);
        let t = Trie { nodes };
        proof {
            t.lemma_empty();
        }
        t
    }

    /// Look among the children of node `i` for the one carrying `c`.
    fn find_child(&self, i: usize, c: char) -> (res: Option<usize>)
        requires
            self.wf(),
            i < self.nodes.len(),
        ensures
            match res {
                Some(j) => i < j < self.nodes.len() && self.is_child_with_char(
                    i as int,
                    c,
                    j as int,
                ),
                None => forall|j: int| !self.is_child_with_char(i as int, c, j),
            },
    {
        let num = self.nodes[i].children.len();
        let mut k: usize = 0;
        while k < num
            invariant
                self.wf(),
                i < self.nodes.len(),
                num == self.nodes[i as int].children.len(),
                k <= num,
                forall|k2: int| 0 <= k2 < k
                    ==> self.nodes[#[trigger] self.nodes[i as int].children[k2] as int].character
                        != c,
            decreases num - k,
        {
            let j = self.nodes[i].children[k];
            if self.nodes[j].character == c {
                return Some(j);
            }
            k += 1;
        }
        proof {
            assert forall|j: int| !self.is_child_with_char(i as int, c, j) by {
                if self.is_child_with_char(i as int, c, j) {
                    let k2 = choose|k2: int|
                        0 <= k2 < self.nodes[i as int].children.len()
                            && #[trigger] self.nodes[i as int].children[k2] == j;
                    assert(false);
                }
            }
        }
        None
    }

    /// Exact membership: walk the characters of `s` from the root and report
    /// whether a dictionary entry ends at the node reached.
    pub fn contains(&self, s: &str) -> (r: bool)
        requires
            self.wf(),
        ensures
            r == self.contains_word(s@),
    {
        let ghost w = s@;
        let n = s.unicode_len();
        let mut cur: usize = 0;
        let mut p: usize = 0;
        while p < n
            invariant
                self.wf(),
                n == w.len(),
                w == s@,
                p <= n,
                cur < self.nodes.len(),
                self.reaches(0, w.take(p as int), cur as int),
            decreases n - p,
        {
            let c = s.get_char(p);
            match self.find_child(cur, c) {
                Some(j) => {
                    proof {
                        self.lemma_step_extends(w, p as int, cur as int, j as int);
                    }
                    cur = j;
                },
                None => {
                    proof {
                        if self.contains_word(w) {
                            let e = choose|e: int|
                                0 <= e < self.nodes.len() && #[trigger] self.reaches(0, w, e)
                                    && self.nodes[e].is_word_end;
                            assert(w =~= w.take(p as int) + w.skip(p as int));
                            let mid = self.lemma_reaches_split(
                                0,
                                w.take(p as int),
                                w.skip(p as int),
                                e,
                            );
                            self.lemma_reaches_deterministic(
                                0,
                                w.take(p as int),
                                mid,
                                cur as int,
                            );
                            assert(w.skip(p as int)[0] == w[p as int]);
                            let j = choose|j: int|
                                #[trigger] self.is_child_with_char(
                                    cur as int,
                                    w.skip(p as int)[0],
                                    j,
                                ) && self.reaches(j, w.skip(p as int).drop_first(), e);
                            assert(false);
                        }
                    }
                    return false;
                },
            }
            p += 1;
        }
        proof {
            assert(w.take(n as int) =~= w);
        }
        let r = self.nodes[cur].is_word_end;
        proof {
            if r {
                assert(self.contains_word(w));
            } else if self.contains_word(w) {
                let e = choose|e: int|
                    0 <= e < self.nodes.len() && #[trigger] self.reaches(0, w, e)
                        && self.nodes[e].is_word_end;
                self.lemma_reaches_deterministic(0, w, e, cur as int);
                assert(false);
            }
        }
        r
    }

    /// One step of a walk: from the node reached by the first `p` characters
    /// of `w`, a child edge for `w[p]` extends the walk by one character.
    proof fn lemma_step_extends(self, w: Seq<char>, p: int, cur: int, j: int)
        requires
            0 <= p < w.len(),
            self.reaches(0, w.take(p), cur),
            self.is_child_with_char(cur, w[p], j),
        ensures
            self.reaches(0, w.take(p + 1), j),
    {
        let c = w[p];
        assert(seq![c].drop_first().len() == 0);
        assert(self.reaches(j, seq![c].drop_first(), j));
        assert(seq![c][0] == c);
        assert(self.is_child_with_char(cur, seq![c][0], j));
        assert(self.reaches(cur, seq![c], j));
        self.lemma_reaches_concat(0, w.take(p), seq![c], cur, j);
        assert(w.take(p + 1) =~= w.take(p) + seq![c]);
    }

    /// Insert one word: walk its characters from the root, adding a fresh
    /// child wherever a character has no edge yet, and mark the final node as
    /// a word end. The index then holds exactly the old words and this one.
    pub fn insert_word(&mut self, word: &str)
        requires
            old(self).wf(),
        ensures
            final(self).wf(),
            forall|v: Seq<char>| final(self).contains_word(v) <==> (old(self).contains_word(v)
                || v == word@),
    {
        let ghost w = word@;
        let n = word.unicode_len();
        let mut cur: usize = 0;
        let mut p: usize = 0;
        while p < n
            invariant
                self.wf(),
                n == w.len(),
                w == word@,
                p <= n,
                cur < self.nodes.len(),
                self.reaches(0, w.take(p as int), cur as int),
                forall|v: Seq<char>| self.contains_word(v) == old(self).contains_word(v),
            decreases n - p,
        {
            let c = word.get_char(p);
            match self.find_child(cur, c) {
                Some(j) => {
                    proof {
                        self.lemma_step_extends(w, p as int, cur as int, j as int);
                    }
                    cur = j;
                },
                None => {
                    let ghost prev = *self;
                    let m = self.nodes.len();
                    self.nodes.push(
                        TrieNode { character: c, is_word_end: false, children: Vec::new() },
                    );
                    self.nodes[cur].children.push(m);
                    proof {
                        prev.lemma_grow_preserves(*self, cur as int, c);
                        assert(self.reaches(0, w.take(p as int), cur as int));
                        self.lemma_step_extends(w, p as int, cur as int, m as int);
                    }
                    cur = m;
                },
            }
            p += 1;
        }
        proof {
            assert(w.take(n as int) =~= w);
        }
        let ghost prev = *self;
        self.nodes[cur].is_word_end = true;
        proof {
            prev.lemma_set_word_end(*self, cur as int);
            assert forall|v: Seq<char>| self.contains_word(v) <==> (old(self).contains_word(v)
                || v == w) by {
                if self.contains_word(v) && !prev.contains_word(v) {
                    prev.lemma_root_path_unique(v, w, cur as int);
                }
                if v == w {
                    assert(prev.reaches(0, v, cur as int));
                }
            }
        }
    }
}

/// The set of words a corpus line equals: `w` is a corpus word when some
/// line of the corpus reads exactly `w`.
pub open spec fn corpus_has(corpus: Seq<Seq<char>>, w: Seq<char>) -> bool {
    exists|k: int| 0 <= k < corpus.len() && corpus[k] == w
}

/// Build the dictionary index from the corpus, one line at a time. The
/// resulting index holds exactly the lines of the corpus: membership asks
/// for an exact line match.
pub fn construct_tree(corpus: &Vec<String>) -> (t: Trie)
    ensures
        t.wf(),
        forall|w: Seq<char>| t.contains_word(w) <==> corpus_has(corpus.deep_view(), w),
{
    let ghost dv = corpus.deep_view();
    let mut t = Trie::new();
    let mut idx: usize = 0;
    proof {
        assert forall|w: Seq<char>| !corpus_has(dv.take(0), w) by {}
    }
    while idx < corpus.len()
        invariant
            t.wf(),
            idx <= corpus.len(),
            dv == corpus.deep_view(),
            dv.len() == corpus.len(),
            forall|w: Seq<char>| t.contains_word(w) <==> corpus_has(dv.take(idx as int), w),
        decreases corpus.len() - idx,
    {
        let line: &String = &corpus[idx];
        proof {
            assert(dv[idx as int] == corpus[idx as int]@);
        }
        t.insert_word(line.as_str());
        proof {
            let prefix = dv.take(idx as int);
            let extended = dv.take(idx as int + 1);
            assert forall|w: Seq<char>| #![trigger corpus_has(extended, w)]
                corpus_has(extended, w) <==> (corpus_has(prefix, w) || w == dv[idx as int]) by {
                if corpus_has(extended, w) {
                    let k = choose|k: int| 0 <= k < extended.len() && extended[k] == w;
                    if k < idx {
                        assert(prefix[k] == w);
                    }
                }
                if corpus_has(prefix, w) {
                    let k = choose|k: int| 0 <= k < prefix.len() && prefix[k] == w;
                    assert(extended[k] == w);
                }
                if w == dv[idx as int] {
                    assert(extended[idx as int] == w);
                }
            }
        }
        idx += 1;
    }
    proof {
        assert(dv.take(corpus.len() as int) =~= dv);
    }
    t
}

/// Building the index is a pure function of the corpus: two indexes built
/// from equal corpora answer every membership question alike.
pub proof fn lemma_build_idempotent(t1: Trie, t2: Trie, corpus: Seq<Seq<char>>)
    requires
        forall|w: Seq<char>| t1.contains_word(w) <==> corpus_has(corpus, w),
        forall|w: Seq<char>| t2.contains_word(w) <==> corpus_has(corpus, w),
    ensures
        forall|w: Seq<char>| t1.contains_word(w) == t2.contains_word(w),
{
}

} // verus!
