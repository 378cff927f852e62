use vstd::prelude::*;

use crate::explorer::{ExplorerResult, WordExplorer};
use crate::radix_tree::{all_letters, is_letter, is_lower, lower, lower_char, RadixTree};
use vstd::arithmetic::div_mod::{lemma_fundamental_div_mod, lemma_mod_pos_bound};

verus! {

/// A validated rectangular letter grid, stored row-major: cell (row, col)
/// lives at linear index `row * h_len + col`.
#[derive(Debug)]
pub struct CrosswordMatrix {
    pub inner: Vec<char>,
    pub h_len: usize,
    pub v_len: usize,
    pub total_len: usize,
}

/// Errors that can arise while building a grid.
#[derive(Debug, Clone, PartialEq, Eq)]
pub enum CrosswordMatrixError {
    /// The letters contain a character that is not an ASCII letter.
    InvalidChar,
    /// The declared dimensions do not match the number of letters given.
    InvalidSize,
}

impl CrosswordMatrixError {
    /// A fixed description of the error, for callers that report it.
    pub fn message(&self) -> (r: &'static str)
        ensures
            match self {
                CrosswordMatrixError::InvalidChar => r@ == "Matrix contains non-alphabetic characters"@,
                CrosswordMatrixError::InvalidSize => r@ == "Matrix dimensions do not match string length"@,
            },
    {
        match self {
            CrosswordMatrixError::InvalidChar => "Matrix contains non-alphabetic characters",
            CrosswordMatrixError::InvalidSize => "Matrix dimensions do not match string length",
        }
    }
}

impl CrosswordMatrix {
    /// The dimensions match the buffer, the cell count leaves room for the
    /// index arithmetic of the scans, and every cell holds an ASCII letter.
    pub open spec fn wf(self) -> bool {
        &&& self.total_len == self.h_len * self.v_len
        &&& self.inner@.len() == self.total_len
        &&& self.total_len < usize::MAX
        &&& all_letters(self.inner@)
    }

    fn validate_letters(s: &str) -> (r: Result<(), CrosswordMatrixError>)
        ensures
            match r {
                Ok(()) => all_letters(s@),
                Err(e) => e == CrosswordMatrixError::InvalidChar && !all_letters(s@),
            },
    {
        let n = s.unicode_len();
        let mut i: usize = 0;
        while i < n
            invariant
                n == s@.len(),
                i <= n,
                forall|j: int| 0 <= j < i ==> is_letter(s@[j]),
            decreases n - i,
        {
            let c = s.get_char(i);
            if !(('a' <= c && c <= 'z') || ('A' <= c && c <= 'Z')) {
                return Err(CrosswordMatrixError::InvalidChar);
            }
            i += 1;
        }
        Ok(())
    }

    /// Builds a grid of `h_len` columns and `v_len` rows from one flat,
    /// row-major string of letters.  Succeeds exactly when the string has
    /// `h_len * v_len` characters, that count is representable, and every
    /// character is an ASCII letter.
    pub fn from_linear(h_len: usize, v_len: usize, as_letters: &str) -> (r: Result<
        Self,
        CrosswordMatrixError,
    >)
        ensures
            match r {
                Ok(m) => {
                    &&& m.wf()
                    &&& m.h_len == h_len
                    &&& m.v_len == v_len
                    &&& m.inner@ == as_letters@
                    &&& as_letters@.len() == h_len * v_len
                    &&& all_letters(as_letters@)
                },
                Err(CrosswordMatrixError::InvalidSize) => as_letters@.len() != h_len * v_len
                    || h_len * v_len >= usize::MAX,
                Err(CrosswordMatrixError::InvalidChar) => as_letters@.len() == h_len * v_len
                    < usize::MAX && !all_letters(as_letters@),
            },
    {
        let total_len = match h_len.checked_mul(v_len) {
            Some(t) => t,
            None => {
                return Err(CrosswordMatrixError::InvalidSize);
            },
        };
        if total_len == usize::MAX {
            return Err(CrosswordMatrixError::InvalidSize);
        }
        let n = as_letters.unicode_len();
        if total_len != n {
            return Err(CrosswordMatrixError::InvalidSize);
        }
        match Self::validate_letters(as_letters) {
            Ok(()) => {},
            Err(e) => {
                return Err(e);
            },
        }
        let mut inner: Vec<char> = Vec::new();
        let mut i: usize = 0;
        while i < n
            invariant
                n == as_letters@.len(),
                i <= n,
                inner@ =~= as_letters@.take(i as int),
            decreases n - i,
        {
            inner.push(as_letters.get_char(i));
            i += 1;
        }
        proof {
            assert(as_letters@.take(n as int) =~= as_letters@);
        }
        Ok(Self { h_len, v_len, total_len, inner })
    }
}

/// What validation finds wrong with one row, checked in the order the build
/// checks: the length against the first row first, the letters second.
pub open spec fn spec_row_error(row: Seq<char>, h: nat, e: CrosswordMatrixError) -> bool {
    if row.len() != h {
        e == CrosswordMatrixError::InvalidSize
    } else {
        !all_letters(row) && e == CrosswordMatrixError::InvalidChar
    }
}

/// The first `n` rows, flattened into one row-major letter sequence.
pub open spec fn concat_rows(rows: Seq<Seq<char>>, n: int) -> Seq<char>
    decreases n,
{
    if n <= 0 {
        Seq::empty()
    } else {
        concat_rows(rows, n - 1) + rows[n - 1]
    }
}

impl CrosswordMatrix {
    /// Builds a grid from one string per row.  The first row fixes the
    /// column count; succeeds exactly when every row has that length, the
    /// cell count is representable, and every character is an ASCII letter.
    pub fn from_row(letterss: &Vec<String>) -> (r: Result<Self, CrosswordMatrixError>)
        requires
            letterss@.len() >= 1,
        ensures
            match r {
                Ok(m) => {
                    &&& m.wf()
                    &&& m.h_len == letterss@[0]@.len()
                    &&& m.v_len == letterss@.len()
                    &&& forall|i: int|
                        0 <= i < letterss@.len() ==> (#[trigger] letterss@[i]@).len()
                            == letterss@[0]@.len() && all_letters(letterss@[i]@)
                    &&& m.inner@ == concat_rows(letterss.deep_view(), letterss@.len() as int)
                },
                Err(e) => {
                    ||| (letterss@[0]@.len() * letterss@.len() >= usize::MAX && e
                        == CrosswordMatrixError::InvalidSize)
                    ||| (letterss@[0]@.len() * letterss@.len() < usize::MAX && exists|i: int|
                        0 <= i < letterss@.len() && spec_row_error(
                            #[trigger] letterss@[i]@,
                            letterss@[0]@.len(),
                            e,
                        ) && (forall|i2: int|
                            0 <= i2 < i ==> (#[trigger] letterss@[i2]@).len()
                                == letterss@[0]@.len() && all_letters(letterss@[i2]@)))
                },
            },
    {
        let h_len = letterss[0].as_str().unicode_len();
        let v_len = letterss.len();
        let total_len = match h_len.checked_mul(v_len) {
            Some(t) => t,
            None => {
                return Err(CrosswordMatrixError::InvalidSize);
            },
        };
        if total_len == usize::MAX {
            return Err(CrosswordMatrixError::InvalidSize);
        }
        let mut inner: Vec<char> = Vec::new();
        let mut i: usize = 0;
        while i < v_len
            invariant
                v_len == letterss@.len(),
                h_len == letterss@[0]@.len(),
                total_len == h_len * v_len,
                total_len < usize::MAX,
                i <= v_len,
                forall|i2: int|
                    0 <= i2 < i ==> (#[trigger] letterss@[i2]@).len() == h_len && all_letters(
                        letterss@[i2]@,
                    ),
                inner@ =~= concat_rows(letterss.deep_view(), i as int),
                inner@.len() == i * h_len,
            decreases v_len - i,
        {
            let letters = letterss[i].as_str();
            if letters.unicode_len() != h_len {
                proof {
                    assert(spec_row_error(
                        letterss@[i as int]@,
                        letterss@[0]@.len(),
                        CrosswordMatrixError::InvalidSize,
                    ));
                }
                return Err(CrosswordMatrixError::InvalidSize);
            }
            match Self::validate_letters(letters) {
                Ok(()) => {},
                Err(e) => {
                    proof {
                        assert(spec_row_error(letterss@[i as int]@, letterss@[0]@.len(), e));
                    }
                    return Err(e);
                },
            }
            let n = letters.unicode_len();
            let mut j: usize = 0;
            while j < n
                invariant
                    n == letters@.len(),
                    j <= n,
                    inner@ =~= concat_rows(letterss.deep_view(), i as int) + letters@.take(j as int),
                decreases n - j,
            {
                inner.push(letters.get_char(j));
                j += 1;
            }
            proof {
                assert(letterss.deep_view()[i as int] == letterss@[i as int]@);
                assert(letters@.take(n as int) =~= letters@);
                assert(inner@ =~= concat_rows(letterss.deep_view(), i as int + 1));
                assert((i + 1) * h_len == i * h_len + h_len) by (nonlinear_arith);
            }
            i += 1;
        }
        proof {
            assert(all_letters(inner@)) by {
                assert forall|i2: int| 0 <= i2 < i implies all_letters(
                    #[trigger] letterss.deep_view()[i2],
                ) by {
                    assert(letterss.deep_view()[i2] == letterss@[i2]@);
                }
                lemma_concat_rows_letters(letterss.deep_view(), i as int);
            }
            assert(v_len * h_len == h_len * v_len) by (nonlinear_arith);
        }
        Ok(Self { h_len, v_len, total_len, inner })
    }
}

/// How many indices the range `start..stop`, stepping by `step`, holds.
pub open spec fn scan_count(start: int, stop: int, step: int) -> int {
    if start >= stop || step < 1 {
        0
    } else {
        (stop - start - 1) / step + 1
    }
}

/// The letters a directional scan visits, in the order it visits them: the
/// cells at `start`, `start + step`, ... below `stop`, walked backwards when
/// `rev` is set.
pub open spec fn spec_scan_letters(
    letters: Seq<char>,
    start: int,
    stop: int,
    step: int,
    rev: bool,
) -> Seq<char> {
    let n = scan_count(start, stop, step);
    Seq::new(
        n as nat,
        |k: int|
            if rev {
                letters[start + (n - 1 - k) * step]
            } else {
                letters[start + k * step]
            },
    )
}

/// The `k`-th position of a scan lies inside the scanned range.
proof fn lemma_scan_pos_in_range(start: int, stop: int, step: int, k: int)
    requires
        step >= 1,
        0 <= k < scan_count(start, stop, step),
    ensures
        start <= start + k * step < stop,
{
    let a = stop - start - 1;
    lemma_fundamental_div_mod(a, step);
    lemma_mod_pos_bound(a, step);
    assert(step * (a / step) == a - a % step);
    assert((a / step) * step <= a) by (nonlinear_arith)
        requires
            step * (a / step) <= a,
    ;
    assert(k * step <= (a / step) * step) by (nonlinear_arith)
        requires
            k <= a / step,
            step >= 1,
            0 <= k,
    ;
    assert(0 <= k * step) by (nonlinear_arith)
        requires
            0 <= k,
            step >= 1,
    ;
}

/// The words one directional scan over the letters `s` reports: for every
/// prefix of `s` that the dictionary holds (lowercased), that lowercased
/// prefix, in order of growing length.  A scan stops at the first prefix the
/// tree cannot extend, but such a prefix has no held extensions either, so
/// nothing after it could have been reported anyway.
pub open spec fn spec_scan_words(tree: RadixTree, s: Seq<char>) -> Seq<Seq<char>>
    decreases s.len(),
{
    if s.len() == 0 {
        Seq::empty()
    } else {
        let prev = spec_scan_words(tree, s.drop_last());
        if tree.spec_contains(lower(s)) {
            prev.push(lower(s))
        } else {
            prev
        }
    }
}

/// Once the walk of a prefix has failed, the rest of the scan reports
/// nothing: the scan's words are exactly those of the surviving prefix.
proof fn lemma_scan_words_stops(tree: RadixTree, s: Seq<char>, k: int)
    requires
        0 <= k < s.len(),
        tree.spec_walk(0, lower(s.take(k + 1))) == None::<int>,
    ensures
        spec_scan_words(tree, s) == spec_scan_words(tree, s.take(k)),
    decreases s.len(),
{
    let w = lower(s.take(k + 1));
    if s.len() == k + 1 {
        assert(lower(s) =~= w);
        assert(!tree.spec_contains(lower(s)));
        assert(s.drop_last() =~= s.take(k));
    } else {
        let full = lower(s);
        assert(full =~= w + full.skip(k + 1));
        tree.lemma_walk_concat(0, w, full.skip(k + 1));
        assert(tree.spec_walk(0, full) == None::<int>);
        assert(!tree.spec_contains(full));
        assert(s.drop_last().take(k + 1) =~= s.take(k + 1));
        lemma_scan_words_stops(tree, s.drop_last(), k);
        assert(s.drop_last().take(k) =~= s.take(k));
    }
}

impl CrosswordMatrix {
    /// Runs one directional scan through the matcher, appending every word
    /// the scan completes to `result`, in the order the scan finds them.
    fn handle_parcours(
        &self,
        explorer: &mut WordExplorer,
        result: &mut Vec<String>,
        start: usize,
        stop: usize,
        step: usize,
        rev: bool,
    )
        requires
            self.wf(),
            old(explorer).wf(),
            step >= 1,
            stop <= self.total_len,
        ensures
            final(explorer).wf(),
            final(explorer).tree == old(explorer).tree,
            final(result).deep_view() == old(result).deep_view() + spec_scan_words(
                old(explorer).tree,
                spec_scan_letters(self.inner@, start as int, stop as int, step as int, rev),
            ),
    {
        let ghost tree = old(explorer).tree;
        let ghost lseq = spec_scan_letters(
            self.inner@,
            start as int,
            stop as int,
            step as int,
            rev,
        );
        let ghost words0 = result.deep_view();
        explorer.flush();
        if start >= stop {
            proof {
                assert(lseq.len() == 0);
                assert(result.deep_view() =~= words0 + spec_scan_words(tree, lseq));
            }
            return ;
        }
        let count = (stop - start - 1) / step + 1;
        let mut k: usize = 0;
        while k < count
            invariant
                self.wf(),
                explorer.wf(),
                explorer.tree == tree,
                tree == old(explorer).tree,
                words0 == old(result).deep_view(),
                tree.wf(),
                step >= 1,
                start < stop,
                stop <= self.total_len,
                count == scan_count(start as int, stop as int, step as int),
                lseq == spec_scan_letters(
                    self.inner@,
                    start as int,
                    stop as int,
                    step as int,
                    rev,
                ),
                lseq.len() == count,
                k <= count,
                explorer.inner_word@ == lower(lseq.take(k as int)),
                result.deep_view() == words0 + spec_scan_words(tree, lseq.take(k as int)),
            decreases count - k,
        {
            let pos = if rev {
                count - 1 - k
            } else {
                k
            };
            proof {
                lemma_scan_pos_in_range(start as int, stop as int, step as int, pos as int);
            }
            let idx = start + pos * step;
            let c = self.inner[idx];
            proof {
                assert(lseq[k as int] == self.inner@[idx as int]);
                assert(is_letter(c));
            }
            let ghost state0 = explorer.word_state;
            let ghost word0 = explorer.inner_word@;
            let r = explorer.explore_char(c);
            proof {
                tree.lemma_walk_snoc(0, word0, lower_char(c));
                assert(lower(lseq.take(k as int + 1)) =~= word0.push(lower_char(c)));
                assert(lseq.take(k as int + 1).drop_last() =~= lseq.take(k as int));
            }
            match r {
                ExplorerResult::Reset => {
                    proof {
                        assert(tree.spec_walk(0, lower(lseq.take(k as int + 1))) == None::<int>);
                        lemma_scan_words_stops(tree, lseq, k as int);
                        assert(lseq.take(k as int) =~= lseq.take(k as int));
                        assert(result.deep_view() == words0 + spec_scan_words(tree, lseq));
                    }
                    return ;
                },
                ExplorerResult::ValideWord => {
                    let ghost dv0 = result.deep_view();
                    let found = explorer.get_word().to_owned();
                    result.push(found);
                    proof {
                        assert(tree.spec_contains(lower(lseq.take(k as int + 1))));
                        assert(result.deep_view() =~= dv0.push(lower(lseq.take(k as int + 1))));
                        assert(result.deep_view() == words0 + spec_scan_words(
                            tree,
                            lseq.take(k as int + 1),
                        ));
                    }
                },
                ExplorerResult::PartialWord => {
                    proof {
                        assert(!tree.spec_contains(lower(lseq.take(k as int + 1))));
                        assert(result.deep_view() == words0 + spec_scan_words(
                            tree,
                            lseq.take(k as int + 1),
                        ));
                    }
                },
            }
            k += 1;
        }
        proof {
            assert(lseq.take(count as int) =~= lseq);
        }
    }
}

/// The words all eight directional scans from the anchor cell (col, row)
/// report, in the order the search runs them: down, right, left, up, the
/// falling diagonal away from and towards the anchor, and the rising
/// diagonal likewise.  Each scan is a (start, stop, step, reversed) range
/// over the flat buffer, bounded so that it never leaves the grid or wraps
/// past the edge it runs towards.
pub open spec fn spec_cell_words(
    tree: RadixTree,
    g: CrosswordMatrix,
    col: int,
    row: int,
) -> Seq<Seq<char>> {
    let h = g.h_len as int;
    let v = g.v_len as int;
    let total = g.total_len as int;
    let idx = row * h + col;
    let m1 = vstd::math::min(h - col - 1, v - row - 1);
    let m2 = vstd::math::min(col, row);
    let m3 = vstd::math::min(v - 1 - row, col);
    let m4 = vstd::math::min(h - col, row);
    let sd = if h >= 2 {
        h - 1
    } else {
        1
    };
    let lets = g.inner@;
    spec_scan_words(tree, spec_scan_letters(lets, idx, total, h, false)) + spec_scan_words(
        tree,
        spec_scan_letters(lets, idx, (row + 1) * h, 1, false),
    ) + spec_scan_words(tree, spec_scan_letters(lets, row * h, idx + 1, 1, true))
        + spec_scan_words(tree, spec_scan_letters(lets, col, idx + 1, h, true)) + spec_scan_words(
        tree,
        spec_scan_letters(lets, idx, idx + m1 * (h + 1) + 1, h + 1, false),
    ) + spec_scan_words(tree, spec_scan_letters(lets, idx - (h + 1) * m2, idx + 1, h + 1, true))
        + spec_scan_words(tree, spec_scan_letters(lets, idx, idx + m3 * (h - 1) + 1, sd, false))
        + spec_scan_words(tree, spec_scan_letters(lets, idx - (h - 1) * m4, idx + 1, sd, true))
}

/// The words of the first `rows` cells of column `col`, row by row.
pub open spec fn spec_row_words(
    tree: RadixTree,
    g: CrosswordMatrix,
    col: int,
    rows: int,
) -> Seq<Seq<char>>
    decreases rows,
{
    if rows <= 0 {
        Seq::empty()
    } else {
        spec_row_words(tree, g, col, rows - 1) + spec_cell_words(tree, g, col, rows - 1)
    }
}

/// The words of every cell of the columns `col_from..col_to`, column by
/// column.
pub open spec fn spec_band_words(
    tree: RadixTree,
    g: CrosswordMatrix,
    col_from: int,
    col_to: int,
) -> Seq<Seq<char>>
    decreases col_to - col_from,
{
    if col_to <= col_from {
        Seq::empty()
    } else {
        spec_band_words(tree, g, col_from, col_to - 1) + spec_row_words(
            tree,
            g,
            col_to - 1,
            g.v_len as int,
        )
    }
}

/// Every word the search finds on `g` with dictionary `tree`: the eight
/// scans of every anchor cell, cells taken column by column, rows within a
/// column top to bottom.
pub open spec fn spec_solve_words(tree: RadixTree, g: CrosswordMatrix) -> Seq<Seq<char>> {
    spec_band_words(tree, g, 0, g.h_len as int)
}

impl CrosswordMatrix {
    /// Runs the eight directional scans anchored at cell (col, row).
    #[verifier::rlimit(100)]
    fn scan_cell(
        &self,
        explorer: &mut WordExplorer,
        result: &mut Vec<String>,
        col: usize,
        row: usize,
    )
        requires
            self.wf(),
            old(explorer).wf(),
            col < self.h_len,
            row < self.v_len,
        ensures
            final(explorer).wf(),
            final(explorer).tree == old(explorer).tree,
            final(result).deep_view() == old(result).deep_view() + spec_cell_words(
                old(explorer).tree,
                *self,
                col as int,
                row as int,
            ),
    {
        let ghost tree = old(explorer).tree;
        let ghost dv0 = result.deep_view();
        let ghost lets = self.inner@;
        let ghost h = self.h_len as int;
        let ghost v = self.v_len as int;
        let ghost total = self.total_len as int;
        let ghost cc = col as int;
        let ghost rr = row as int;
        let ghost idx = rr * h + cc;
        let h_len = self.h_len;
        let v_len = self.v_len;
        let total_len = self.total_len;
        proof {
            assert(rr * h + cc < h * v && (rr + 1) * h <= h * v && h <= h * v) by (nonlinear_arith)
                requires
                    0 <= cc < h,
                    0 <= rr < v,
            ;
        }
        let index = row * h_len + col;
        // straight down, then straight right
        let ghost p1 = spec_scan_words(tree, spec_scan_letters(lets, idx, total, h, false));
        self.handle_parcours(explorer, result, index, total_len, h_len, false);
        let rg_stop = (row + 1) * h_len;
        let ghost p2 = spec_scan_words(tree, spec_scan_letters(lets, idx, (rr + 1) * h, 1, false));
        self.handle_parcours(explorer, result, index, rg_stop, 1, false);
        // straight left and straight up, as reversed forward scans
        let ghost p3 = spec_scan_words(tree, spec_scan_letters(lets, rr * h, idx + 1, 1, true));
        self.handle_parcours(explorer, result, row * h_len, index + 1, 1, true);
        let ghost p4 = spec_scan_words(tree, spec_scan_letters(lets, cc, idx + 1, h, true));
        self.handle_parcours(explorer, result, col, index + 1, h_len, true);
        // falling diagonal, away from the anchor
        let m1 = if h_len - col - 1 < v_len - row - 1 {
            h_len - col - 1
        } else {
            v_len - row - 1
        };
        proof {
            assert(m1 as int == vstd::math::min(h - cc - 1, v - rr - 1));
            assert(idx + (m1 as int) * (h + 1) + 1 <= h * v) by (nonlinear_arith)
                requires
                    0 <= cc < h,
                    0 <= rr < v,
                    idx == rr * h + cc,
                    0 <= m1 as int <= h - cc - 1,
                    m1 as int <= v - rr - 1,
            ;
        }
        let stop_dr = index + m1 * (h_len + 1) + 1;
        let ghost p5 = spec_scan_words(
            tree,
            spec_scan_letters(lets, idx, idx + (m1 as int) * (h + 1) + 1, h + 1, false),
        );
        self.handle_parcours(explorer, result, index, stop_dr, h_len + 1, false);
        // falling diagonal, towards the anchor from above and left
        let m2 = if col < row {
            col
        } else {
            row
        };
        proof {
            assert(m2 as int == vstd::math::min(cc, rr));
            assert((h + 1) * (m2 as int) <= idx) by (nonlinear_arith)
                requires
                    idx == rr * h + cc,
                    0 <= m2 as int <= cc,
                    m2 as int <= rr,
                    0 <= cc,
                    0 <= rr,
                    1 <= h,
            ;
        }
        let start_ul = index - (h_len + 1) * m2;
        let ghost p6 = spec_scan_words(
            tree,
            spec_scan_letters(lets, idx - (h + 1) * (m2 as int), idx + 1, h + 1, true),
        );
        self.handle_parcours(explorer, result, start_ul, index + 1, h_len + 1, true);
        // the rising diagonal needs a step of at least one even on a
        // one-column grid, where its scans degenerate to the anchor alone
        let sd = if h_len >= 2 {
            h_len - 1
        } else {
            1
        };
        let m3 = if v_len - 1 - row < col {
            v_len - 1 - row
        } else {
            col
        };
        proof {
            assert(m3 as int == vstd::math::min(v - 1 - rr, cc));
            assert(idx + (m3 as int) * (h - 1) + 1 <= h * v) by (nonlinear_arith)
                requires
                    0 <= cc < h,
                    0 <= rr < v,
                    idx == rr * h + cc,
                    0 <= m3 as int <= v - 1 - rr,
                    m3 as int <= cc,
            ;
        }
        let stop_dl = index + m3 * (h_len - 1) + 1;
        let ghost p7 = spec_scan_words(
            tree,
            spec_scan_letters(lets, idx, idx + (m3 as int) * (h - 1) + 1, sd as int, false),
        );
        self.handle_parcours(explorer, result, index, stop_dl, sd, false);
        let m4 = if h_len - col < row {
            h_len - col
        } else {
            row
        };
        proof {
            assert(m4 as int == vstd::math::min(h - cc, rr));
            assert((h - 1) * (m4 as int) <= idx) by (nonlinear_arith)
                requires
                    idx == rr * h + cc,
                    0 <= m4 as int <= rr,
                    0 <= cc,
                    0 <= rr,
                    1 <= h,
            ;
        }
        let start_ur = index - (h_len - 1) * m4;
        let ghost p8 = spec_scan_words(
            tree,
            spec_scan_letters(lets, idx - (h - 1) * (m4 as int), idx + 1, sd as int, true),
        );
        self.handle_parcours(explorer, result, start_ur, index + 1, sd, true);
        proof {
            assert(result.deep_view() == dv0 + p1 + p2 + p3 + p4 + p5 + p6 + p7 + p8);
            assert(spec_cell_words(tree, *self, cc, rr) == p1 + p2 + p3 + p4 + p5 + p6 + p7 + p8);
            assert(result.deep_view() =~= dv0 + spec_cell_words(tree, *self, cc, rr));
        }
    }

    /// Searches the contiguous column band `col_from..col_to`: every row of
    /// every column in the band, eight directions per cell.  A worker that
    /// owns one band and a private matcher can run this concurrently with
    /// other bands' workers over the shared, frozen dictionary.
    pub fn solve_columns(
        &self,
        explorer: &mut WordExplorer,
        col_from: usize,
        col_to: usize,
    ) -> (result: Vec<String>)
        requires
            self.wf(),
            old(explorer).wf(),
            col_from <= col_to <= self.h_len,
        ensures
            final(explorer).wf(),
            final(explorer).tree == old(explorer).tree,
            result.deep_view() == spec_band_words(
                old(explorer).tree,
                *self,
                col_from as int,
                col_to as int,
            ),
    {
        let ghost tree = old(explorer).tree;
        let mut result: Vec<String> = Vec::new();
        proof {
            assert(result.deep_view() =~= spec_band_words(
                tree,
                *self,
                col_from as int,
                col_from as int,
            ));
        }
        let mut col = col_from;
        while col < col_to
            invariant
                self.wf(),
                explorer.wf(),
                explorer.tree == tree,
                tree == old(explorer).tree,
                col_from <= col <= col_to <= self.h_len,
                result.deep_view() == spec_band_words(tree, *self, col_from as int, col as int),
            decreases col_to - col,
        {
            let mut row: usize = 0;
            while row < self.v_len
                invariant
                    self.wf(),
                    explorer.wf(),
                    explorer.tree == tree,
                    col_from <= col < col_to <= self.h_len,
                    row <= self.v_len,
                    result.deep_view() == spec_band_words(tree, *self, col_from as int, col as int)
                        + spec_row_words(tree, *self, col as int, row as int),
                decreases self.v_len - row,
            {
                let ghost dvr = result.deep_view();
                self.scan_cell(explorer, &mut result, col, row);
                proof {
                    assert(result.deep_view() =~= spec_band_words(
                        tree,
                        *self,
                        col_from as int,
                        col as int,
                    ) + spec_row_words(tree, *self, col as int, row as int + 1));
                }
                row += 1;
            }
            proof {
                assert(result.deep_view() =~= spec_band_words(
                    tree,
                    *self,
                    col_from as int,
                    col as int + 1,
                ));
            }
            col += 1;
        }
        result
    }

    /// Searches the whole grid: every word of the dictionary found along any
    /// of the eight directions from any cell, one entry per occurrence, in
    /// scan order.
    pub fn solve(&self, explorer: &mut WordExplorer) -> (result: Vec<String>)
        requires
            self.wf(),
            old(explorer).wf(),
        ensures
            final(explorer).wf(),
            final(explorer).tree == old(explorer).tree,
            result.deep_view() == spec_solve_words(old(explorer).tree, *self),
    {
        self.solve_columns(explorer, 0, self.h_len)
    }
}

/// Contiguous column bands compose: searching `a..b` and `b..c` yields,
/// concatenated, exactly the words of searching `a..c`.  Splitting the grid
/// into bands, one worker each, therefore finds exactly what one worker
/// scanning every column finds: parallelism does not change what is found.
pub proof fn lemma_band_decomposition(
    tree: RadixTree,
    g: CrosswordMatrix,
    a: int,
    b: int,
    c: int,
)
    requires
        a <= b <= c,
    ensures
        spec_band_words(tree, g, a, c) == spec_band_words(tree, g, a, b) + spec_band_words(
            tree,
            g,
            b,
            c,
        ),
    decreases c - b,
{
    if b == c {
        assert(spec_band_words(tree, g, a, c) =~= spec_band_words(tree, g, a, b)
            + spec_band_words(tree, g, b, c));
    } else {
        lemma_band_decomposition(tree, g, a, b, c - 1);
        assert(spec_band_words(tree, g, a, c) =~= spec_band_words(tree, g, a, b)
            + spec_band_words(tree, g, b, c));
    }
}

/// Searching an unchanged grid with an unchanged dictionary reproduces the
/// same words: the result is a function of the grid and the tree alone, so
/// two runs, whenever and on whatever schedule they happen, agree.
pub proof fn lemma_solve_deterministic(
    tree: RadixTree,
    g: CrosswordMatrix,
    r1: Seq<Seq<char>>,
    r2: Seq<Seq<char>>,
)
    requires
        r1 == spec_solve_words(tree, g),
        r2 == spec_solve_words(tree, g),
    ensures
        r1 == r2,
{
}

/// Where band `k` of `n_workers` contiguous bands over `h_len` columns
/// starts: every band gets `h_len / n_workers` columns, and each of the
/// first `h_len % n_workers` bands one more.
pub open spec fn spec_band_start(h_len: int, n_workers: int, k: int) -> int {
    k * (h_len / n_workers) + vstd::math::min(k, h_len % n_workers)
}

/// The half-open column range of band `k`: band 0 starts at column 0, each
/// band ends where the next begins, and the last ends at `h_len`, so the
/// bands cover the columns exactly once.
pub fn band_bounds(h_len: usize, n_workers: usize, k: usize) -> (r: (usize, usize))
    requires
        1 <= n_workers,
        k < n_workers,
    ensures
        r.0 == spec_band_start(h_len as int, n_workers as int, k as int),
        r.1 == spec_band_start(h_len as int, n_workers as int, k as int + 1),
        r.0 <= r.1 <= h_len,
        k == 0 ==> r.0 == 0,
        k == n_workers - 1 ==> r.1 == h_len,
{
    let base = h_len / n_workers;
    let rem = h_len % n_workers;
    proof {
        let h = h_len as int;
        let n = n_workers as int;
        let kk = k as int;
        lemma_fundamental_div_mod(h, n);
        lemma_mod_pos_bound(h, n);
        assert(n * base == h - rem);
        assert((kk + 1) * (base as int) <= n * (base as int)) by (nonlinear_arith)
            requires
                kk + 1 <= n,
                0 <= base as int,
        ;
        assert(0 <= kk * (base as int) <= (kk + 1) * (base as int)) by (nonlinear_arith)
            requires
                0 <= kk,
                0 <= base as int,
        ;
    }
    let extra0 = if k < rem {
        k
    } else {
        rem
    };
    let extra1 = if k + 1 < rem {
        k + 1
    } else {
        rem
    };
    let s0 = k * base + extra0;
    let s1 = (k + 1) * base + extra1;
    (s0, s1)
}

/// Rows of letters flatten to letters.
proof fn lemma_concat_rows_letters(rows: Seq<Seq<char>>, n: int)
    requires
        n <= rows.len(),
        forall|i: int| 0 <= i < n ==> all_letters(#[trigger] rows[i]),
    ensures
        all_letters(concat_rows(rows, n)),
    decreases n,
{
    if n > 0 {
        lemma_concat_rows_letters(rows, n - 1);
    }
}

} // verus!
