use vstd::prelude::*;

use crate::radix_tree::{is_letter, is_lower, letter_slot, lower_char, validate_char, RadixTree};

verus! {

/// Where a matcher stands in the dictionary tree: the arena index of the
/// current node and whether that node completes a word.
#[derive(Debug, Clone, Copy)]
pub struct ExploreState {
    pub is_valide_word: bool,
    pub index: u32,
}

impl ExploreState {
    pub fn new(is_valide_word: bool, index: u32) -> (r: Self)
        ensures
            r.is_valide_word == is_valide_word,
            r.index == index,
    {
        Self { is_valide_word, index }
    }
}

impl Default for ExploreState {
    /// The state of a matcher that has consumed nothing: at the root, which
    /// is never reported as a completed word by a fresh matcher.
    fn default() -> (r: Self)
        ensures
            !r.is_valide_word,
            r.index == 0,
    {
        Self { is_valide_word: false, index: 0 }
    }
}

/// What one consumed character did to the matcher.
#[derive(Debug, PartialEq, Eq, Structural)]
pub enum ExplorerResult {
    /// The character was accepted and completed a dictionary word.
    ValideWord,
    /// The character was accepted; the letters so far are a proper prefix.
    PartialWord,
    /// The character could not extend the letters so far; the matcher
    /// discarded all progress and stands fresh again.
    Reset,
}

/// Relies on String::push: appends one character at the end of the string.
#[verifier::external_body]
fn string_push(s: &mut String, c: char)
    ensures
        final(s)@ == old(s)@.push(c),
{
    s.push(c);
}

/// Relies on String::clear: removes every character, leaving the string
/// empty.
#[verifier::external_body]
fn string_clear(s: &mut String)
    ensures
        final(s)@ == Seq::<char>::empty(),
{
    s.clear();
}

/// An incremental matcher: a cursor over the dictionary tree together with
/// the letters consumed since the last reset.
pub struct WordExplorer {
    pub inner_word: String,
    pub tree: RadixTree,
    pub word_state: ExploreState,
}

impl WordExplorer {
    /// The matcher's state agrees with its tree: the consumed letters walk
    /// from the root exactly to the current node.
    pub open spec fn wf(self) -> bool {
        &&& self.tree.wf()
        &&& self.word_state.index < self.tree.nodes@.len()
        &&& self.tree.spec_walk(0, self.inner_word@) == Some(self.word_state.index as int)
    }

    /// A matcher that has consumed nothing since construction or the last
    /// reset: no letters, standing at the root.
    pub open spec fn is_fresh(self) -> bool {
        &&& self.inner_word@ == Seq::<char>::empty()
        &&& self.word_state.index == 0
        &&& !self.word_state.is_valide_word
    }

    pub fn new(radix_tree: RadixTree) -> (r: Self)
        requires
            radix_tree.wf(),
        ensures
            r.wf(),
            r.is_fresh(),
            r.tree == radix_tree,
    {
        Self { inner_word: String::new(), tree: radix_tree, word_state: ExploreState::default() }
    }

    /// Consumes one character.  A character that is not an ASCII letter, or
    /// whose lowercase form has no branch at the current node, resets the
    /// matcher; otherwise the matcher advances and reports whether the
    /// letters so far complete a word.
    pub fn explore_char(&mut self, c: char) -> (r: ExplorerResult)
        requires
            old(self).wf(),
        ensures
            final(self).wf(),
            final(self).tree == old(self).tree,
            match old(self).tree.spec_explore(old(self).word_state.index as int, c) {
                None => r == ExplorerResult::Reset && final(self).is_fresh(),
                Some(m) => {
                    &&& final(self).word_state.index == m
                    &&& final(self).word_state.is_valide_word == old(
                        self,
                    ).tree.nodes@[m].is_valide_word
                    &&& final(self).inner_word@ == old(self).inner_word@.push(lower_char(c))
                    &&& r == if old(self).tree.nodes@[m].is_valide_word {
                        ExplorerResult::ValideWord
                    } else {
                        ExplorerResult::PartialWord
                    }
                },
            },
    {
        let valide_char = match validate_char(c) {
            Ok(lc) => lc,
            Err(_) => {
                self.flush();
                return ExplorerResult::Reset;
            },
        };
        let maybe_new_state = self.tree.explore_char_unchecked(
            self.word_state.index as usize,
            valide_char,
        );
        match maybe_new_state {
            Some(new_state) => {
                proof {
                    self.tree.lemma_walk_snoc(0, self.inner_word@, valide_char);
                }
                self.word_state = new_state;
                string_push(&mut self.inner_word, valide_char);
                if self.word_state.is_valide_word {
                    ExplorerResult::ValideWord
                } else {
                    ExplorerResult::PartialWord
                }
            },
            None => {
                self.flush();
                ExplorerResult::Reset
            },
        }
    }

    /// A borrow of the letters consumed since the last reset.
    pub fn get_word<'a>(&'a self) -> (r: &'a str)
        ensures
            r@ == self.inner_word@,
    {
        self.inner_word.as_str()
    }

    /// Resets the matcher to its construction state: no letters, at the
    /// root.
    pub fn flush(&mut self)
        ensures
            final(self).tree == old(self).tree,
            final(self).is_fresh(),
            old(self).tree.wf() ==> final(self).wf(),
    {
        self.word_state = ExploreState::default();
        string_clear(&mut self.inner_word);
    }
}

/// A matcher that has just reported Reset carries exactly the state of a
/// freshly constructed matcher over the same tree, so any character fed to
/// it next is answered exactly as the fresh matcher would answer it.
pub proof fn lemma_reset_is_fresh_start(e1: WordExplorer, e2: WordExplorer)
    requires
        e1.tree == e2.tree,
        e1.is_fresh(),
        e2.is_fresh(),
    ensures
        e1.word_state == e2.word_state,
        e1.inner_word@ == e2.inner_word@,
{
}

} // verus!
