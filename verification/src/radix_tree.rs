use vstd::prelude::*;

use crate::explorer::ExploreState;

verus! {

/// One lowercase ASCII letter.
pub open spec fn is_lower(c: char) -> bool {
    'a' <= c && c <= 'z'
}

/// One uppercase ASCII letter.
pub open spec fn is_upper(c: char) -> bool {
    'A' <= c && c <= 'Z'
}

/// An ASCII alphabetic character, either case.
pub open spec fn is_letter(c: char) -> bool {
    is_lower(c) || is_upper(c)
}

/// The lowercase form of an ASCII letter; other characters are left unchanged.
pub open spec fn lower_char(c: char) -> char {
    if is_upper(c) {
        ((c as int) + 32) as char
    } else {
        c
    }
}

/// A whole sequence of characters, lowercased letter by letter.
pub open spec fn lower(s: Seq<char>) -> Seq<char> {
    s.map_values(|c: char| lower_char(c))
}

/// The branch slot (0 to 25) that a lowercase letter selects in a node.
pub open spec fn letter_slot(c: char) -> int
    recommends
        is_lower(c),
{
    c as int - 97
}

/// Errors that can arise while building the dictionary tree.
#[derive(Debug, Clone, PartialEq, Eq)]
pub enum RadixTreeError {
    /// This word contains this character, which is not an ASCII letter.
    InvalidCharacter { word: String, character: char },
    /// The node arena would outgrow the largest representable node reference.
    CapacityExceeded,
}

/// One node of the tree: a completed-word flag and 26 branch slots, one per
/// letter, each holding either `u32::MAX` (no branch) or the arena index of
/// the child node.
#[derive(Debug, Clone, Copy)]
pub struct TreeNode {
    pub is_valide_word: bool,
    pub branches: [u32; 26],
}

impl Default for TreeNode {
    /// A fresh node: not a word, no branches.
    fn default() -> (r: Self)
        ensures
            !r.is_valide_word,
            forall|c: int| 0 <= c < 26 ==> r.branches[c] == u32::MAX,
    {
        Self { is_valide_word: false, branches: [u32::MAX; 26] }
    }
}

/// The dictionary: a prefix tree over lowercase ASCII words, stored as an
/// arena of nodes in which index 0 is the root.
#[derive(Debug)]
pub struct RadixTree {
    pub nodes: Vec<TreeNode>,
}

impl RadixTree {
    /// Well-formedness: the root exists, every branch stays inside the arena
    /// and points strictly forward, and no node has two parents.  Forward,
    /// single-parent branches make the path from the root to any node unique,
    /// which is what lets marking one node mark exactly one word.
    pub open spec fn wf(self) -> bool {
        &&& 1 <= self.nodes@.len() <= u32::MAX as int
        &&& forall|k: int, c: int|
            0 <= k < self.nodes@.len() && 0 <= c < 26 && #[trigger] self.nodes@[k].branches[c]
                != u32::MAX ==> k < self.nodes@[k].branches[c] < self.nodes@.len()
        &&& forall|k1: int, c1: int, k2: int, c2: int|
            0 <= k1 < self.nodes@.len() && 0 <= c1 < 26 && 0 <= k2 < self.nodes@.len() && 0 <= c2
                < 26 && #[trigger] self.nodes@[k1].branches[c1] != u32::MAX
                && #[trigger] self.nodes@[k2].branches[c2] != u32::MAX
                && self.nodes@[k1].branches[c1] == self.nodes@[k2].branches[c2] ==> k1 == k2 && c1
                == c2
    }

    /// One step down the tree from `node` through branch slot `slot`.
    pub open spec fn spec_step(self, node: int, slot: int) -> Option<int> {
        if self.nodes@[node].branches[slot] == u32::MAX {
            None
        } else {
            Some(self.nodes@[node].branches[slot] as int)
        }
    }

    /// Walking the word `w` down from `node`: the node reached, or `None` as
    /// soon as a character is not a lowercase letter or has no branch.
    pub open spec fn spec_walk(self, node: int, w: Seq<char>) -> Option<int>
        decreases w.len(),
    {
        if w.len() == 0 {
            Some(node)
        } else if !is_lower(w[0]) {
            None
        } else {
            match self.spec_step(node, letter_slot(w[0])) {
                None => None,
                Some(next) => self.spec_walk(next, w.drop_first()),
            }
        }
    }

    /// One matching step on a raw character: refused outright when it is not
    /// an ASCII letter, otherwise a step through the slot of its lowercase
    /// form.
    pub open spec fn spec_explore(self, node: int, c: char) -> Option<int> {
        if !is_letter(c) {
            None
        } else {
            self.spec_step(node, letter_slot(lower_char(c)))
        }
    }

    /// The tree holds `w` exactly when walking `w` from the root ends on a
    /// node marked as a completed word.
    pub open spec fn spec_contains(self, w: Seq<char>) -> bool {
        match self.spec_walk(0, w) {
            Some(n) => self.nodes@[n].is_valide_word,
            None => false,
        }
    }

    /// How many nonempty prefixes of `w` the tree cannot walk: exactly the
    /// nodes that inserting `w` must create.
    pub open spec fn spec_missing_prefixes(self, w: Seq<char>) -> int
        decreases w.len(),
    {
        if w.len() == 0 {
            0
        } else {
            self.spec_missing_prefixes(w.drop_last()) + if self.spec_walk(0, w) is None {
                1int
            } else {
                0int
            }
        }
    }

    /// A word the tree can walk has no missing prefixes.
    proof fn lemma_missing_prefixes_zero(self, w: Seq<char>, m: int)
        requires
            self.spec_walk(0, w) == Some(m),
        ensures
            self.spec_missing_prefixes(w) == 0,
        decreases w.len(),
    {
        if w.len() != 0 {
            assert(w =~= w.drop_last().push(w.last()));
            self.lemma_walk_snoc(0, w.drop_last(), w.last());
            let k = self.spec_walk(0, w.drop_last())->Some_0;
            self.lemma_missing_prefixes_zero(w.drop_last(), k);
        }
    }

    /// Walking a concatenation walks the first part, then the second from
    /// wherever the first part ended.
    pub proof fn lemma_walk_concat(self, node: int, w1: Seq<char>, w2: Seq<char>)
        ensures
            self.spec_walk(node, w1 + w2) == match self.spec_walk(node, w1) {
                None => None::<int>,
                Some(m) => self.spec_walk(m, w2),
            },
        decreases w1.len(),
    {
        if w1.len() == 0 {
            assert(w1 + w2 =~= w2);
        } else {
            assert((w1 + w2)[0] == w1[0]);
            if is_lower(w1[0]) {
                match self.spec_step(node, letter_slot(w1[0])) {
                    None => {
                        assert((w1 + w2).len() > 0);
                    },
                    Some(next) => {
                        assert((w1 + w2).drop_first() =~= w1.drop_first() + w2);
                        self.lemma_walk_concat(next, w1.drop_first(), w2);
                    },
                }
            }
        }
    }

    /// Walking one more character steps once from the node the shorter walk
    /// reached.
    pub proof fn lemma_walk_snoc(self, node: int, w: Seq<char>, c: char)
        ensures
            self.spec_walk(node, w.push(c)) == match self.spec_walk(node, w) {
                None => None::<int>,
                Some(m) => if is_lower(c) {
                    self.spec_step(m, letter_slot(c))
                } else {
                    None::<int>
                },
            },
    {
        assert(w.push(c) =~= w + seq![c]);
        self.lemma_walk_concat(node, w, seq![c]);
        if let Some(m) = self.spec_walk(node, w) {
            if is_lower(c) {
                if let Some(next) = self.spec_step(m, letter_slot(c)) {
                    assert(seq![c].drop_first().len() == 0);
                    assert(self.spec_walk(next, seq![c].drop_first()) == Some(next));
                    assert(self.spec_walk(m, seq![c]) == Some(next));
                }
            }
        }
    }

    /// A walk that succeeds ends inside the arena.
    pub proof fn lemma_walk_in_bounds(self, node: int, w: Seq<char>, m: int)
        requires
            self.wf(),
            0 <= node < self.nodes@.len(),
            self.spec_walk(node, w) == Some(m),
        ensures
            0 <= m < self.nodes@.len(),
        decreases w.len(),
    {
        if w.len() != 0 {
            match self.spec_step(node, letter_slot(w[0])) {
                None => {},
                Some(next) => {
                    self.lemma_walk_in_bounds(next, w.drop_first(), m);
                },
            }
        }
    }

    /// In a well-formed tree the walk from the root to a node is unique: two
    /// words that reach the same node are the same word.
    pub proof fn lemma_walk_unique(self, w1: Seq<char>, w2: Seq<char>, m: int)
        requires
            self.wf(),
            self.spec_walk(0, w1) == Some(m),
            self.spec_walk(0, w2) == Some(m),
        ensures
            w1 == w2,
        decreases w1.len(),
    {
        if w1.len() == 0 {
            assert(m == 0);
            if w2.len() != 0 {
                self.lemma_last_step(w2, m);
                assert(false);
            }
            assert(w1 =~= w2);
        } else if w2.len() == 0 {
            assert(m == 0);
            self.lemma_last_step(w1, m);
            assert(false);
        } else {
            let (k1, c1) = self.lemma_last_step(w1, m);
            let (k2, c2) = self.lemma_last_step(w2, m);
            assert(k1 == k2 && c1 == c2);
            assert(w1.last() as int == w2.last() as int);
            assert(w1.last() == w2.last());
            self.lemma_walk_unique(w1.drop_last(), w2.drop_last(), k1);
            assert(w1 =~= w1.drop_last().push(w1.last()));
            assert(w2 =~= w2.drop_last().push(w2.last()));
        }
    }

    /// For a nonempty successful walk from the root, the node before the last
    /// step and the slot taken by the last character, shown to be the unique
    /// parent branch of the node reached.
    proof fn lemma_last_step(self, w: Seq<char>, m: int) -> (r: (int, int))
        requires
            self.wf(),
            w.len() > 0,
            self.spec_walk(0, w) == Some(m),
        ensures
            0 <= r.0 < self.nodes@.len(),
            r.1 == letter_slot(w.last()),
            is_lower(w.last()),
            0 <= r.1 < 26,
            self.spec_walk(0, w.drop_last()) == Some(r.0),
            self.nodes@[r.0].branches[r.1] != u32::MAX,
            self.nodes@[r.0].branches[r.1] == m,
            r.0 < m < self.nodes@.len(),
    {
        assert(w =~= w.drop_last().push(w.last()));
        self.lemma_walk_snoc(0, w.drop_last(), w.last());
        let k = self.spec_walk(0, w.drop_last())->Some_0;
        self.lemma_walk_in_bounds(0, w.drop_last(), k);
        (k, letter_slot(w.last()))
    }
}

/// Every character of `w` is an ASCII letter.
pub open spec fn all_letters(w: Seq<char>) -> bool {
    forall|j: int| 0 <= j < w.len() ==> is_letter(w[j])
}

/// `c` is the first character of `w` that is not an ASCII letter.
pub open spec fn first_invalid(w: Seq<char>, c: char) -> bool {
    exists|j: int|
        0 <= j < w.len() && w[j] == c && !is_letter(c) && (forall|j2: int|
            0 <= j2 < j ==> is_letter(w[j2]))
}

/// The number of characters in the first `n` words.
pub open spec fn total_letters(words: Seq<Seq<char>>, n: int) -> int
    decreases n,
{
    if n <= 0 {
        0
    } else {
        total_letters(words, n - 1) + words[n - 1].len()
    }
}

proof fn lemma_total_letters_mono(words: Seq<Seq<char>>, a: int, b: int)
    requires
        a <= b,
    ensures
        total_letters(words, a) <= total_letters(words, b),
    decreases b - a,
{
    if a < b {
        lemma_total_letters_mono(words, a, b - 1);
    }
}

impl RadixTree {
    /// `self` extends `t0`: every node of `t0` keeps its word mark and its
    /// branches, branches that `t0` did not have lead only to nodes that `t0`
    /// did not have, and those new nodes are not marked as words.  Extension
    /// is how word insertion grows the tree without changing its contents
    /// until the final mark is set.
    pub open spec fn spec_extends(self, t0: RadixTree) -> bool {
        &&& t0.nodes@.len() <= self.nodes@.len()
        &&& forall|k: int|
            0 <= k < t0.nodes@.len() ==> #[trigger] self.nodes@[k].is_valide_word
                == t0.nodes@[k].is_valide_word
        &&& forall|k: int|
            t0.nodes@.len() <= k < self.nodes@.len() ==> !(
            #[trigger] self.nodes@[k].is_valide_word)
        &&& forall|k: int, c: int|
            0 <= k < t0.nodes@.len() && 0 <= c < 26 && #[trigger] t0.nodes@[k].branches[c]
                != u32::MAX ==> self.nodes@[k].branches[c] == t0.nodes@[k].branches[c]
        &&& forall|k: int, c: int|
            0 <= k < self.nodes@.len() && 0 <= c < 26 && #[trigger] self.nodes@[k].branches[c]
                != u32::MAX && (k >= t0.nodes@.len() || t0.nodes@[k].branches[c] == u32::MAX)
                ==> self.nodes@[k].branches[c] >= t0.nodes@.len()
    }

    proof fn lemma_extends_trans(self, t1: RadixTree, t0: RadixTree)
        requires
            self.spec_extends(t1),
            t1.spec_extends(t0),
        ensures
            self.spec_extends(t0),
    {
        assert forall|k: int, c: int|
            0 <= k < self.nodes@.len() && 0 <= c < 26 && #[trigger] self.nodes@[k].branches[c]
                != u32::MAX && (k >= t0.nodes@.len() || t0.nodes@[k].branches[c]
                == u32::MAX) implies self.nodes@[k].branches[c] >= t0.nodes@.len() by {
            if k >= t1.nodes@.len() || t1.nodes@[k].branches[c] == u32::MAX {
                assert(self.nodes@[k].branches[c] >= t1.nodes@.len());
            } else {
                assert(self.nodes@[k].branches[c] == t1.nodes@[k].branches[c]);
            }
        }
    }

    /// A walk that succeeded in the smaller tree is untouched in the
    /// extension.
    proof fn lemma_walk_preserved(self, t0: RadixTree, node: int, w: Seq<char>, m: int)
        requires
            t0.wf(),
            self.spec_extends(t0),
            0 <= node < t0.nodes@.len(),
            t0.spec_walk(node, w) == Some(m),
        ensures
            self.spec_walk(node, w) == Some(m),
        decreases w.len(),
    {
        if w.len() != 0 {
            match t0.spec_step(node, letter_slot(w[0])) {
                None => {},
                Some(next) => {
                    self.lemma_walk_preserved(t0, next, w.drop_first(), m);
                },
            }
        }
    }

    /// A walk that starts on a node the smaller tree did not have never comes
    /// back into the smaller tree.
    proof fn lemma_walk_stays_new(self, t0: RadixTree, node: int, w: Seq<char>, m: int)
        requires
            self.wf(),
            self.spec_extends(t0),
            t0.nodes@.len() <= node < self.nodes@.len(),
            self.spec_walk(node, w) == Some(m),
        ensures
            m >= t0.nodes@.len(),
        decreases w.len(),
    {
        if w.len() != 0 {
            match self.spec_step(node, letter_slot(w[0])) {
                None => {},
                Some(next) => {
                    assert(self.nodes@[node].branches[letter_slot(w[0])] >= t0.nodes@.len());
                    self.lemma_walk_stays_new(t0, next, w.drop_first(), m);
                },
            }
        }
    }

    /// A walk of the extension that ends inside the smaller tree already
    /// succeeded, with the same end, in the smaller tree.
    proof fn lemma_walk_back(self, t0: RadixTree, node: int, w: Seq<char>, m: int)
        requires
            t0.wf(),
            self.wf(),
            self.spec_extends(t0),
            0 <= node < t0.nodes@.len(),
            self.spec_walk(node, w) == Some(m),
            m < t0.nodes@.len(),
        ensures
            t0.spec_walk(node, w) == Some(m),
        decreases w.len(),
    {
        if w.len() != 0 {
            match self.spec_step(node, letter_slot(w[0])) {
                None => {},
                Some(next) => {
                    if t0.nodes@[node].branches[letter_slot(w[0])] != u32::MAX {
                        assert(self.nodes@[node].branches[letter_slot(w[0])]
                            == t0.nodes@[node].branches[letter_slot(w[0])]);
                        self.lemma_walk_back(t0, next, w.drop_first(), m);
                    } else {
                        assert(next >= t0.nodes@.len());
                        self.lemma_walk_stays_new(t0, next, w.drop_first(), m);
                        assert(false);
                    }
                },
            }
        }
    }

    /// Extending a tree changes no answers: it holds exactly the words the
    /// smaller tree holds.
    proof fn lemma_extends_contains(self, t0: RadixTree)
        requires
            t0.wf(),
            self.wf(),
            self.spec_extends(t0),
        ensures
            forall|w: Seq<char>| self.spec_contains(w) == t0.spec_contains(w),
    {
        assert forall|w: Seq<char>| self.spec_contains(w) == t0.spec_contains(w) by {
            match t0.spec_walk(0, w) {
                Some(m) => {
                    t0.lemma_walk_in_bounds(0, w, m);
                    self.lemma_walk_preserved(t0, 0, w, m);
                },
                None => {
                    match self.spec_walk(0, w) {
                        Some(m) => {
                            self.lemma_walk_in_bounds(0, w, m);
                            if m < t0.nodes@.len() {
                                self.lemma_walk_back(t0, 0, w, m);
                                assert(false);
                            } else {
                                assert(!self.nodes@[m].is_valide_word);
                            }
                        },
                        None => {},
                    }
                },
            }
        }
    }

    /// Well-formedness only speaks of branches, so it carries over to a tree
    /// with the same branches and different word marks.
    proof fn lemma_wf_same_branches(self, other: RadixTree)
        requires
            other.wf(),
            self.nodes@.len() == other.nodes@.len(),
            forall|k: int, c: int|
                0 <= k < self.nodes@.len() && 0 <= c < 26 ==> #[trigger] self.nodes@[k].branches[c]
                    == other.nodes@[k].branches[c],
        ensures
            self.wf(),
    {
        assert forall|k: int, c: int|
            0 <= k < self.nodes@.len() && 0 <= c < 26 && #[trigger] self.nodes@[k].branches[c]
                != u32::MAX implies k < self.nodes@[k].branches[c] < self.nodes@.len() by {
            assert(self.nodes@[k].branches[c] == other.nodes@[k].branches[c]);
        }
        assert forall|k1: int, c1: int, k2: int, c2: int|
            0 <= k1 < self.nodes@.len() && 0 <= c1 < 26 && 0 <= k2 < self.nodes@.len() && 0 <= c2
                < 26 && #[trigger] self.nodes@[k1].branches[c1] != u32::MAX
                && #[trigger] self.nodes@[k2].branches[c2] != u32::MAX
                && self.nodes@[k1].branches[c1] == self.nodes@[k2].branches[c2] implies k1 == k2
            && c1 == c2 by {
            assert(self.nodes@[k1].branches[c1] == other.nodes@[k1].branches[c1]);
            assert(self.nodes@[k2].branches[c2] == other.nodes@[k2].branches[c2]);
        }
    }

    /// Two trees with the same branches walk the same way; word marks play no
    /// part in walking.
    proof fn lemma_walk_same_branches(self, other: RadixTree, node: int, w: Seq<char>)
        requires
            self.wf(),
            self.nodes@.len() == other.nodes@.len(),
            forall|k: int, c: int|
                0 <= k < self.nodes@.len() && 0 <= c < 26 ==> #[trigger] self.nodes@[k].branches[c]
                    == other.nodes@[k].branches[c],
            0 <= node < self.nodes@.len(),
        ensures
            self.spec_walk(node, w) == other.spec_walk(node, w),
        decreases w.len(),
    {
        if w.len() != 0 && is_lower(w[0]) {
            match self.spec_step(node, letter_slot(w[0])) {
                None => {},
                Some(next) => {
                    self.lemma_walk_same_branches(other, next, w.drop_first());
                },
            }
        }
    }
}

/// Checks that `c` is an ASCII letter and hands back its lowercase form; a
/// character that is no letter comes back unchanged on the error side, for
/// the caller to report with its context.
pub fn validate_char(c: char) -> (r: Result<char, char>)
    ensures
        match r {
            Ok(lc) => is_letter(c) && lc == lower_char(c),
            Err(d) => !is_letter(c) && d == c,
        },
{
    if 'a' <= c && c <= 'z' {
        Ok(c)
    } else if 'A' <= c && c <= 'Z' {
        let v: u32 = c as u32;
        Ok(((v + 32) as u8) as char)
    } else {
        Err(c)
    }
}

/// The branch slot of a lowercase letter.
fn char_to_index(c: char) -> (r: usize)
    requires
        is_lower(c),
    ensures
        r == letter_slot(c),
        r < 26,
{
    (c as u32 as usize) - 97
}

impl RadixTree {
    /// The empty dictionary: a lone root that is not a word.
    fn new() -> (r: Self)
        ensures
            r.wf(),
            r.nodes@.len() == 1,
            forall|w: Seq<char>| !r.spec_contains(w),
    {
        let tree = Self { nodes: vec![TreeNode::default()] };
        proof {
            assert forall|w: Seq<char>| !tree.spec_contains(w) by {
                if w.len() != 0 && is_lower(w[0]) {
                    assert(tree.spec_step(0, letter_slot(w[0])) is None);
                }
            }
        }
        tree
    }

    /// How many nodes the arena holds.
    fn len(&self) -> (r: usize)
        ensures
            r == self.nodes@.len(),
    {
        self.nodes.len()
    }

    /// Appends a fresh branchless node to the arena and returns its index.
    fn insert_node(&mut self, node: TreeNode) -> (r: usize)
        requires
            old(self).wf(),
            old(self).nodes@.len() < u32::MAX as int,
            !node.is_valide_word,
            forall|c: int| 0 <= c < 26 ==> node.branches[c] == u32::MAX,
        ensures
            final(self).wf(),
            final(self).nodes@ == old(self).nodes@.push(node),
            r == old(self).nodes@.len(),
    {
        let new_tree_node_index = self.len();
        self.nodes.push(node);
        new_tree_node_index
    }

    /// One matching step: the state of the child that `explore_char` selects
    /// at node `index`, or `None` when the dictionary has no such branch.
    pub fn explore_char_unchecked(&self, index: usize, explore_char: char) -> (r: Option<
        ExploreState,
    >)
        requires
            self.wf(),
            index < self.nodes@.len(),
            is_lower(explore_char),
        ensures
            match r {
                None => self.spec_step(index as int, letter_slot(explore_char)) is None,
                Some(st) => {
                    &&& self.spec_step(index as int, letter_slot(explore_char)) == Some(
                        st.index as int,
                    )
                    &&& st.index < self.nodes@.len()
                    &&& st.is_valide_word == self.nodes@[st.index as int].is_valide_word
                },
            },
    {
        let explore_char_index = char_to_index(explore_char);
        let b = self.nodes[index].branches[explore_char_index];
        if b == u32::MAX {
            return None;
        }
        Some(ExploreState::new(self.nodes[b as usize].is_valide_word, b))
    }

    /// Inserts one word: validates and lowercases each character, descends
    /// the tree creating nodes where branches are missing, and marks the node
    /// reached.  On success the tree holds exactly the words it held before
    /// plus the lowercased word, and the arena has grown by exactly the
    /// prefixes it was missing, so re-inserting a held word leaves the arena
    /// untouched; on failure the tree holds exactly what it held before.  No
    /// outcome ever removes a node.
    pub fn add_word(&mut self, word: &str) -> (r: Result<(), RadixTreeError>)
        requires
            old(self).wf(),
        ensures
            final(self).wf(),
            final(self).nodes@.len() >= old(self).nodes@.len(),
            match r {
                Ok(()) => {
                    &&& all_letters(word@)
                    &&& forall|w: Seq<char>|
                        #[trigger] final(self).spec_contains(w) <==> (old(self).spec_contains(w)
                            || w == lower(word@))
                    &&& final(self).nodes@.len() == old(self).nodes@.len() + old(
                        self,
                    ).spec_missing_prefixes(lower(word@))
                    &&& final(self).nodes@.len() <= old(self).nodes@.len() + word@.len()
                    &&& old(self).spec_contains(lower(word@)) ==> final(self).nodes@ == old(
                        self,
                    ).nodes@
                },
                Err(RadixTreeError::InvalidCharacter { word: w, character: c }) => {
                    &&& w@ == word@
                    &&& first_invalid(word@, c)
                    &&& forall|w2: Seq<char>|
                        #[trigger] final(self).spec_contains(w2) == old(self).spec_contains(w2)
                },
                Err(RadixTreeError::CapacityExceeded) => {
                    &&& old(self).nodes@.len() + word@.len() > u32::MAX
                    &&& forall|w2: Seq<char>|
                        #[trigger] final(self).spec_contains(w2) == old(self).spec_contains(w2)
                },
            },
    {
        let ghost t0 = *old(self);
        let n = word.unicode_len();
        let mut actual: usize = 0;
        let mut i: usize = 0;
        while i < n
            invariant
                self.wf(),
                t0 == *old(self),
                t0.wf(),
                n == word@.len(),
                i <= n,
                self.spec_extends(t0),
                self.nodes@.len() <= t0.nodes@.len() + i,
                self.nodes@.len() == t0.nodes@.len() + t0.spec_missing_prefixes(
                    lower(word@).take(i as int),
                ),
                actual < self.nodes@.len(),
                self.spec_walk(0, lower(word@).take(i as int)) == Some(actual as int),
                (*self == t0 && t0.spec_walk(0, lower(word@).take(i as int)) == Some(
                    actual as int,
                )) || (t0.spec_walk(0, lower(word@).take(i as int)) is None && actual
                    >= t0.nodes@.len() && (forall|c2: int|
                    0 <= c2 < 26 ==> self.nodes@[actual as int].branches[c2] == u32::MAX)),
                forall|j: int| 0 <= j < i ==> is_letter(word@[j]),
            decreases n - i,
        {
            let c = word.get_char(i);
            let lc = match validate_char(c) {
                Ok(lc) => lc,
                Err(d) => {
                    proof {
                        self.lemma_extends_contains(t0);
                        assert(word@[i as int] == c && !is_letter(c));
                        assert(first_invalid(word@, c));
                    }
                    return Err(
                        RadixTreeError::InvalidCharacter { word: word.to_owned(), character: d },
                    );
                },
            };
            proof {
                if is_upper(c) {
                    assert(97 <= c as int + 32 <= 122);
                    assert(lc as int == c as int + 32);
                }
                assert(is_lower(lc));
                assert(lower(word@)[i as int] == lc);
            }
            let char_idx = char_to_index(lc);
            let b = self.nodes[actual].branches[char_idx];
            let next: usize;
            if b == u32::MAX {
                if self.len() >= u32::MAX as usize {
                    proof {
                        self.lemma_extends_contains(t0);
                        assert(t0.nodes@.len() + word@.len() >= self.nodes@.len() + (n - i)
                            > u32::MAX);
                    }
                    return Err(RadixTreeError::CapacityExceeded);
                }
                let ghost tp = *self;
                let new_inserted_index = self.insert_node(TreeNode::default());
                let ghost tq = *self;
                self.nodes[actual].branches[char_idx] = new_inserted_index as u32;
                next = new_inserted_index;
                proof {
                    let na = actual as int;
                    let slot = char_idx as int;
                    let newlen = self.nodes@.len();
                    assert(newlen == tp.nodes@.len() + 1);
                    assert(self.nodes@[na].branches[slot] == new_inserted_index as u32);
                    assert(new_inserted_index as u32 != u32::MAX);
                    // Every branch of the previous tree pointed below its old
                    // length, so the one new branch cannot collide with any.
                    assert(forall|k: int, c2: int|
                        0 <= k < tq.nodes@.len() && 0 <= c2 < 26
                            && #[trigger] tq.nodes@[k].branches[c2] != u32::MAX
                            ==> tq.nodes@[k].branches[c2] < tp.nodes@.len());
                    assert forall|k: int, c2: int|
                        0 <= k < self.nodes@.len() && 0 <= c2 < 26 && !(k == na && c2
                            == slot) implies #[trigger] self.nodes@[k].branches[c2]
                        == tq.nodes@[k].branches[c2] by {}
                    assert forall|k: int, c2: int|
                        0 <= k < self.nodes@.len() && 0 <= c2 < 26
                            && #[trigger] self.nodes@[k].branches[c2]
                            != u32::MAX implies k < self.nodes@[k].branches[c2] < newlen by {
                        if !(k == na && c2 == slot) {
                            assert(self.nodes@[k].branches[c2] == tq.nodes@[k].branches[c2]);
                        }
                    }
                    assert forall|k1: int, c1: int, k2: int, c2: int|
                        0 <= k1 < self.nodes@.len() && 0 <= c1 < 26 && 0 <= k2 < self.nodes@.len()
                            && 0 <= c2 < 26 && #[trigger] self.nodes@[k1].branches[c1] != u32::MAX
                            && #[trigger] self.nodes@[k2].branches[c2] != u32::MAX
                            && self.nodes@[k1].branches[c1]
                            == self.nodes@[k2].branches[c2] implies k1 == k2 && c1 == c2 by {
                        if k1 == na && c1 == slot {
                            if !(k2 == na && c2 == slot) {
                                assert(self.nodes@[k2].branches[c2] == tq.nodes@[k2].branches[c2]);
                                assert(tq.nodes@[k2].branches[c2] < tp.nodes@.len());
                                assert(false);
                            }
                        } else if k2 == na && c2 == slot {
                            assert(self.nodes@[k1].branches[c1] == tq.nodes@[k1].branches[c1]);
                            assert(tq.nodes@[k1].branches[c1] < tp.nodes@.len());
                            assert(false);
                        } else {
                            assert(self.nodes@[k1].branches[c1] == tq.nodes@[k1].branches[c1]);
                            assert(self.nodes@[k2].branches[c2] == tq.nodes@[k2].branches[c2]);
                        }
                    }
                    assert(self.wf());
                    // The new tree extends the tree this iteration started
                    // from: the branch filled here was empty there.
                    assert(tq.nodes@[na].branches[slot] == u32::MAX);
                    assert(tp.nodes@[na].branches[slot] == u32::MAX);
                    assert(self.spec_extends(tp));
                    self.lemma_extends_trans(tp, t0);
                    self.lemma_walk_preserved(
                        tp,
                        0,
                        lower(word@).take(i as int),
                        actual as int,
                    );
                    assert(self.spec_step(na, slot) == Some(new_inserted_index as int));
                    // growth accounting: this prefix was missing, so one node
                    // was owed and one node was added
                    let wi = lower(word@).take(i as int);
                    let wi1 = lower(word@).take(i as int + 1);
                    assert(wi1 =~= wi.push(lc));
                    assert(wi1.drop_last() =~= wi);
                    t0.lemma_walk_snoc(0, wi, lc);
                    if t0.spec_walk(0, wi) is Some {
                        assert(tp == t0);
                        assert(t0.nodes@[na].branches[slot] == u32::MAX);
                        assert(t0.spec_walk(0, wi1) is None);
                        t0.lemma_missing_prefixes_zero(wi, actual as int);
                    } else {
                        assert(t0.spec_walk(0, wi1) is None);
                    }
                    assert(t0.spec_missing_prefixes(wi1) == t0.spec_missing_prefixes(wi) + 1);
                    // the node just added has no branches yet
                    assert(next as int == tp.nodes@.len());
                    assert(self.nodes@[next as int] == tq.nodes@[next as int]);
                    assert(forall|c2: int|
                        0 <= c2 < 26 ==> self.nodes@[next as int].branches[c2] == u32::MAX);
                }
            } else {
                next = b as usize;
                proof {
                    assert(self.spec_step(actual as int, letter_slot(lc)) == Some(next as int));
                    let wi = lower(word@).take(i as int);
                    let wi1 = lower(word@).take(i as int + 1);
                    assert(wi1 =~= wi.push(lc));
                    assert(wi1.drop_last() =~= wi);
                    if t0.spec_walk(0, wi) is Some {
                        // the branch already existed, so the tree is still
                        // exactly the tree this call started from
                        t0.lemma_walk_snoc(0, wi, lc);
                        assert(t0.spec_walk(0, wi1) == Some(next as int));
                        assert(t0.spec_missing_prefixes(wi1) == t0.spec_missing_prefixes(wi));
                    } else {
                        // a node added by this call has no branches, so a
                        // present branch means the walk still runs in the old
                        // tree
                        assert(self.nodes@[actual as int].branches[letter_slot(lc)] == u32::MAX);
                        assert(false);
                    }
                }
            }
            proof {
                let w_i = lower(word@).take(i as int);
                self.lemma_walk_snoc(0, w_i, lc);
                assert(self.spec_walk(0, w_i.push(lc)) == Some(next as int));
                assert(lower(word@).take(i as int + 1) =~= w_i.push(lc));
            }
            actual = next;
            i += 1;
        }
        let ghost tp = *self;
        let mut node = self.nodes[actual];
        node.is_valide_word = true;
        self.nodes[actual] = node;
        proof {
            let na = actual as int;
            let tf = *self;
            let wordl = lower(word@);
            assert(wordl.take(n as int) =~= wordl);
            assert(tp.spec_walk(0, wordl) == Some(na));
            assert forall|k: int, c: int|
                0 <= k < tf.nodes@.len() && 0 <= c < 26 implies #[trigger] tf.nodes@[k].branches[c]
                == tp.nodes@[k].branches[c] by {
                if k == na {
                    assert(tf.nodes@[k].branches == tp.nodes@[k].branches);
                }
            }
            tf.lemma_wf_same_branches(tp);
            tp.lemma_extends_contains(t0);
            assert forall|w: Seq<char>|
                #[trigger] tf.spec_contains(w) <==> (t0.spec_contains(w) || w == wordl) by {
                tf.lemma_walk_same_branches(tp, 0, w);
                match tf.spec_walk(0, w) {
                    Some(m) => {
                        tp.lemma_walk_in_bounds(0, w, m);
                        if m == na {
                            tp.lemma_walk_unique(w, wordl, na);
                            assert(w == wordl);
                            assert(tf.nodes@[na].is_valide_word);
                        } else {
                            assert(tf.nodes@[m].is_valide_word == tp.nodes@[m].is_valide_word);
                            assert(w != wordl);
                        }
                    },
                    None => {
                        assert(!tf.spec_contains(w));
                        assert(!tp.spec_contains(w));
                        assert(w != wordl);
                    },
                }
            }
            // marking adds no node, so the growth is exactly the prefixes
            // that were missing
            assert(tf.nodes@.len() == t0.nodes@.len() + t0.spec_missing_prefixes(wordl));
            // a word already held walks through existing nodes only, so
            // nothing was inserted, and its end was already marked
            if t0.spec_contains(wordl) {
                assert(t0.spec_walk(0, wordl) is Some);
                assert(tp == t0);
                assert(t0.spec_walk(0, wordl) == Some(na));
                assert(t0.nodes@[na].is_valide_word);
                assert(node == tp.nodes@[na]);
                assert(tf.nodes@ =~= t0.nodes@);
            }
        }
        Ok(())
    }

    /// Builds the dictionary from a list of words.  On success the tree
    /// holds the lowercased words of the list and nothing else: walking any
    /// listed word from the root ends on a word mark, and walking any other
    /// string never does.
    pub fn try_from_iter(words: &Vec<String>) -> (r: Result<Self, RadixTreeError>)
        ensures
            match r {
                Ok(tree) => {
                    &&& tree.wf()
                    &&& forall|i: int| 0 <= i < words@.len() ==> all_letters(#[trigger] words@[i]@)
                    &&& forall|w: Seq<char>|
                        #[trigger] tree.spec_contains(w) <==> exists|i: int|
                            0 <= i < words@.len() && w == lower(#[trigger] words@[i]@)
                },
                Err(RadixTreeError::InvalidCharacter { word: w, character: c }) => exists|i: int|
                    0 <= i < words@.len() && w@ == #[trigger] words@[i]@ && first_invalid(
                        words@[i]@,
                        c,
                    ) && (forall|i2: int| 0 <= i2 < i ==> all_letters(words@[i2]@)),
                Err(RadixTreeError::CapacityExceeded) => 1 + total_letters(
                    words.deep_view(),
                    words@.len() as int,
                ) > u32::MAX,
            },
    {
        let mut tree = Self::new();
        let mut i: usize = 0;
        while i < words.len()
            invariant
                tree.wf(),
                i <= words@.len(),
                forall|i2: int| 0 <= i2 < i ==> all_letters(#[trigger] words@[i2]@),
                forall|w: Seq<char>|
                    #[trigger] tree.spec_contains(w) <==> exists|i2: int|
                        0 <= i2 < i && w == lower(#[trigger] words@[i2]@),
                tree.nodes@.len() <= 1 + total_letters(words.deep_view(), i as int),
            decreases words@.len() - i,
        {
            let ghost told = tree;
            let word = &words[i];
            proof {
                assert(words.deep_view()[i as int] == words@[i as int]@);
                assert(total_letters(words.deep_view(), i as int + 1) == total_letters(
                    words.deep_view(),
                    i as int,
                ) + words@[i as int]@.len());
            }
            match tree.add_word(word.as_str()) {
                Ok(()) => {},
                Err(e) => {
                    proof {
                        if e is CapacityExceeded {
                            lemma_total_letters_mono(
                                words.deep_view(),
                                i as int + 1,
                                words@.len() as int,
                            );
                        }
                    }
                    return Err(e);
                },
            }
            proof {
                let wi = lower(words@[i as int]@);
                assert forall|w: Seq<char>| #[trigger]
                    tree.spec_contains(w) <==> exists|i2: int|
                        0 <= i2 < i + 1 && w == lower(#[trigger] words@[i2]@) by {
                    if tree.spec_contains(w) {
                        if w == wi {
                            assert(w == lower(words@[i as int]@));
                        } else {
                            assert(told.spec_contains(w));
                        }
                    }
                    if exists|i2: int| 0 <= i2 < i + 1 && w == lower(#[trigger] words@[i2]@) {
                        let i2 = choose|i2: int|
                            0 <= i2 < i + 1 && w == lower(#[trigger] words@[i2]@);
                        if i2 == i as int {
                            assert(w == wi);
                        } else {
                            assert(told.spec_contains(w));
                        }
                    }
                }
            }
            i += 1;
        }
        Ok(tree)
    }
}

} // verus!
