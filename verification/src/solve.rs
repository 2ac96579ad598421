//! The backtracking search that solves a clue header.

use vstd::prelude::*;

use crate::domain::{
    header_allows, header_allows_set, lemma_cell_index, lemma_fixed_dom, lemma_flat_coords,
    lemma_same_dom, lemma_same_set_props, BoardSet,
};

verus! {

/// An error which may occur whilst trying to compute a solution.
#[derive(Debug)]
pub enum SolutionError {
    /// No solution was found for the provided header.
    NoSolution,
    /// The algorithm has been interrupted.
    Interrupted,
}

/// An error which may occur when backtracking.
#[derive(Debug)]
pub enum BacktrackError {
    /// Every height of the branching cell has been tried: there is no
    /// solution below this frame.
    NoSolution,
    /// This height led to a contradiction, but further heights remain.
    Retry,
}

/// One frame of the backtracking search: an immutable snapshot (`original`),
/// a working copy (`set`), the branching cell (`current_index`, the first
/// cell of the snapshot that is not pinned), and a cursor into that cell's
/// permitted heights (`current_subindex`).
pub struct BacktrackingBoard {
    /// The store as it was when this frame was pushed; restored on retry.
    pub original: BoardSet,
    /// The working store, re-derived from `original` at each try.
    pub set: BoardSet,
    /// The flat index of the branching cell; every cell before it is pinned.
    pub current_index: usize,
    /// The next height of the branching cell to try.
    pub current_subindex: usize,
}

impl BacktrackingBoard {
    /// Frame invariant.
    pub open spec fn wf(self) -> bool {
        &&& self.original.wf()
        &&& self.set.wf()
        &&& self.set.size == self.original.size
        &&& self.set.cells@.len() == self.original.cells@.len()
        &&& self.current_index < self.original.cells@.len()
        &&& forall|k: int|
            0 <= k < self.current_index ==> (#[trigger] self.original.cells@[k]).is_fixed()
        &&& !self.original.cells@[self.current_index as int].is_fixed()
        &&& self.current_subindex <= self.original.cells@[self.current_index as int].len
    }

    /// Heights of the branching cell not yet tried.
    pub open spec fn remaining(self) -> int {
        self.original.cells@[self.current_index as int].len - self.current_subindex
    }

    /// Creates a frame branching on the first unpinned cell of `set`.
    ///
    /// If every cell of `set` is already pinned there is nothing to branch
    /// on, and the completed store is handed back.
    pub fn new(set: BoardSet) -> (r: Result<BacktrackingBoard, BoardSet>)
        requires
            set.wf(),
        ensures
            match r {
                Ok(b) => {
                    &&& b.wf()
                    &&& b.original.same_set(set)
                    &&& b.original.size == set.size
                    &&& b.set == set
                    &&& b.current_subindex == 0
                },
                Err(complete) => {
                    &&& complete == set
                    &&& forall|k: int|
                        0 <= k < set.cells@.len() ==> (#[trigger] set.cells@[k]).is_fixed()
                },
            },
    {
        let total = set.cells.len();
        let mut current_index: usize = 0;
        while current_index < total && set.cells[current_index].count() == 1
            invariant
                0 <= current_index <= total,
                total == set.cells@.len(),
                set.wf(),
                forall|k: int| 0 <= k < current_index ==> (#[trigger] set.cells@[k]).is_fixed(),
            decreases total - current_index,
        {
            current_index = current_index + 1;
        }

        if current_index == total {
            return Err(set);
        }

        let original = set.clone();
        proof {
            lemma_same_set_props(original, set);
        }
        Ok(BacktrackingBoard { original, set, current_index, current_subindex: 0 })
    }

    /// Restores the working store from the snapshot and tries the next
    /// height of the branching cell, propagating its consequences.
    ///
    /// Fails with [`BacktrackError::NoSolution`] iff every height has been
    /// tried; fails with [`BacktrackError::Retry`] when this height leads to
    /// a contradiction but further heights remain.
    #[verifier::loop_isolation(false)]
    pub fn try_backtrack(&mut self, buf: &mut Vec<(usize, usize)>) -> (r: Result<
        (),
        BacktrackError,
    >)
        requires
            old(self).wf(),
            old(self).original.fixpoint(),
            old(self).original.all_nonempty(),
        ensures
            final(self).wf(),
            final(self).original == old(self).original,
            final(self).current_index == old(self).current_index,
            match r {
                Ok(()) => {
                    &&& final(self).current_subindex == old(self).current_subindex + 1
                    &&& final(self).set.narrows(old(self).original)
                    &&& final(self).set.fixpoint()
                    &&& final(self).set.all_nonempty()
                    &&& forall|k: int|
                        #![trigger final(self).set.cells@[k]]
                        0 <= k <= final(self).current_index
                            ==> final(self).set.cells@[k].is_fixed()
                    &&& final(self).set.cells@[final(self).current_index as int].fixed_val()
                        == old(self).original.cells@[old(self).current_index as int].vals@[old(
                        self,
                    ).current_subindex as int]
                },
                Err(BacktrackError::NoSolution) => {
                    &&& final(self).current_subindex == old(self).current_subindex
                    &&& old(self).remaining() == 0
                },
                Err(BacktrackError::Retry) => {
                    &&& final(self).current_subindex == old(self).current_subindex + 1
                },
            },
            old(self).current_subindex < old(self).original.cells@[old(self).current_index
                as int].len ==> forall|b: Seq<u8>|
                (#[trigger] old(self).original.candidate(b)) && b[old(self).current_index as int]
                    == old(self).original.cells@[old(self).current_index as int].vals@[old(
                    self,
                ).current_subindex as int] ==> r.is_ok() && final(self).set.covers(b),
    {
        broadcast use lemma_same_dom;

        let ghost orig = self.original;
        let ghost size = self.original.size as int;

        self.set = self.original.clone();
        proof {
            lemma_same_set_props(self.set, orig);
        }

        let count = self.set.cells[self.current_index].count();
        if self.current_subindex == count {
            // We are out of possible heights: no solution below this frame.
            return Err(BacktrackError::NoSolution);
        }

        buf.clear();

        let x = self.current_index % self.set.size;
        let y = self.current_index / self.set.size;
        proof {
            lemma_flat_coords(size, self.current_index as int);
            assert(self.set.at(x as int, y as int) == self.set.cells@[self.current_index as int]);
        }

        let ghost restored = self.set;
        let ghost sub0 = self.current_subindex as int;
        let ghost ci = self.current_index as int;
        let ghost tried = restored.at(x as int, y as int).vals@[sub0];
        proof {
            assert(restored.cells@[ci].same(orig.cells@[ci]));
            assert(tried == orig.cells@[ci].vals@[sub0]);
        }
        let sr = self.set.set_and_remove_duplicates(x, y, self.current_subindex, buf);
        self.current_subindex = self.current_subindex + 1;
        if sr.is_err() {
            proof {
                // a board that keeps the tried height would have survived
                assert forall|b: Seq<u8>|
                    orig.candidate(b) && b[ci] == orig.cells@[ci].vals@[sub0] implies false by {
                    crate::domain::lemma_covers_same(restored, orig, b);
                    assert(restored.candidate(b));
                    assert(b[x as int + (y as int) * size] == tried);
                    assert(sr.is_ok());
                }
            }
            return Err(BacktrackError::Retry);
        }

        proof {
            let ghost after = self.set;
            // The worklist is consistent with the store after the pinning
            // pass, so propagation may run.
            assert forall|i: int, j: int|
                after.valid(i, j) && (#[trigger] after.at(i, j)).is_fixed() && !buf@.contains(
                    (i as usize, j as usize),
                ) implies after.settled(i, j) by {
                lemma_cell_index(size, i, j);
                if i == x as int && j == y as int {
                } else if !restored.at(i, j).is_fixed() {
                    assert(buf@.contains((i as usize, j as usize)));
                } else {
                    assert(restored.settled(i, j));
                    crate::domain::lemma_settled_preserved(after, restored, i, j);
                }
            }
            assert forall|k: int| 0 <= k < buf@.len() implies {
                let t = #[trigger] buf@[k];
                &&& t.0 < after.size
                &&& t.1 < after.size
                &&& after.at(t.0 as int, t.1 as int).is_fixed()
            } by {}
            assert forall|k: int|
                0 <= k < after.cells@.len() implies (#[trigger] after.cells@[k]).len >= 1 by {
                lemma_flat_coords(size, k);
                let i2 = k % size;
                let j2 = k / size;
                assert(restored.cells@[k].len >= 1);
                assert(restored.at(i2, j2) == restored.cells@[k]);
                assert(after.at(i2, j2).len >= 1);
            }
        }

        let ghost after = self.set;
        let pr = self.set.remove_duplicates_in(buf);
        if pr.is_err() {
            proof {
                // a board that keeps the tried height would have propagated
                assert forall|b: Seq<u8>|
                    orig.candidate(b) && b[ci] == orig.cells@[ci].vals@[sub0] implies false by {
                    crate::domain::lemma_covers_same(restored, orig, b);
                    assert(restored.candidate(b));
                    assert(b[x as int + (y as int) * size] == tried);
                    assert(after.covers(b));
                    assert(after.candidate(b));
                    assert(pr.is_ok());
                }
            }
            return Err(BacktrackError::Retry);
        }

        proof {
            let post = self.set;
            // Narrowing composes through the pinning pass and propagation.
            assert forall|k: int|
                0 <= k < post.cells@.len() implies (#[trigger] post.cells@[k]).dom().subset_of(
                orig.cells@[k].dom(),
            ) && post.cells@[k].len <= orig.cells@[k].len by {
                assert(after.cells@[k].dom().subset_of(restored.cells@[k].dom()));
                assert(restored.cells@[k].same(orig.cells@[k]));
            }
            // Every cell up to the branching cell is pinned.
            assert forall|k: int|
                0 <= k <= self.current_index implies (#[trigger] post.cells@[k]).is_fixed() by {
                lemma_flat_coords(size, k);
                let i2 = k % size;
                let j2 = k / size;
                assert(restored.cells@[k].same(orig.cells@[k]));
                assert(restored.at(i2, j2) == restored.cells@[k]);
                if k < self.current_index {
                    assert(orig.cells@[k].is_fixed());
                    assert(post.at(i2, j2).len <= restored.at(i2, j2).len);
                    assert(post.at(i2, j2).len >= 1);
                } else {
                    assert(i2 == x as int && j2 == y as int);
                    assert(after.at(i2, j2).is_fixed());
                    assert(post.at(i2, j2).len <= after.at(i2, j2).len);
                    assert(post.at(i2, j2).len >= 1);
                }
                assert(post.at(i2, j2) == post.cells@[k]);
            }
            // The branching cell holds the tried height.
            assert(after.at(x as int, y as int).is_fixed());
            assert(after.at(x as int, y as int).fixed_val() == tried);
            lemma_fixed_dom(after.at(x as int, y as int));
            assert(after.at(x as int, y as int) == after.cells@[ci]);
            assert(post.cells@[ci].dom().subset_of(after.cells@[ci].dom()));
            assert(post.cells@[ci].len >= 1);
            crate::domain::lemma_subset_singleton(post.cells@[ci], tried);
            // Boards that keep the tried height stay covered.
            assert forall|b: Seq<u8>|
                orig.candidate(b) && b[ci] == orig.cells@[ci].vals@[sub0] implies post.covers(
                b,
            ) by {
                crate::domain::lemma_covers_same(restored, orig, b);
                assert(restored.candidate(b));
                assert(b[x as int + (y as int) * size] == tried);
                assert(after.covers(b));
                assert(after.candidate(b));
            }
        }
        Ok(())
    }
}

} // verus!

verus! {

/// A completed `n`x`n` board: every height in range, no duplicate in any
/// row or column.
pub open spec fn latin_board(b: Seq<u8>, n: nat) -> bool {
    &&& b.len() == n * n
    &&& forall|k: int| 0 <= k < b.len() ==> 1 <= #[trigger] b[k] <= n
    &&& forall|x1: int, x2: int, y: int|
        #![trigger b[x1 + y * n], b[x2 + y * n]]
        0 <= x1 < x2 < n && 0 <= y < n ==> b[x1 + y * n] != b[x2 + y * n]
    &&& forall|x: int, y1: int, y2: int|
        #![trigger b[x + y1 * n], b[x + y2 * n]]
        0 <= x < n && 0 <= y1 < y2 < n ==> b[x + y1 * n] != b[x + y2 * n]
}

/// What the search promises of a returned board for header `h` on an `n`x`n`
/// puzzle: a completed duplicate-free board whose derived view counts are
/// exactly the header - it solves the puzzle.
pub open spec fn solved_board(b: Seq<u8>, h: Seq<u8>, n: nat) -> bool {
    &&& latin_board(b, n)
    &&& crate::visibility::header_of(b, n) == h
}

/// A fully pinned propagation fixpoint that narrows a header-pruned store
/// reads back as a completed duplicate-free board.
pub proof fn lemma_complete_board(s: BoardSet, base: BoardSet, h: Seq<u8>, b: Seq<u8>)
    requires
        s.wf(),
        s.fixpoint(),
        s.narrows(base),
        base.wf(),
        forall|k: int| 0 <= k < s.cells@.len() ==> (#[trigger] s.cells@[k]).is_fixed(),
        forall|x: int, y: int|
            base.valid(x, y) ==> (#[trigger] base.dom_at(x, y)).subset_of(
                header_allows_set(h, base.size as nat, x, y),
            ),
        b.len() == s.cells@.len(),
        forall|k: int|
            0 <= k < b.len() ==> #[trigger] b[k] == (if s.cells@[k].is_fixed() {
                s.cells@[k].fixed_val()
            } else {
                0u8
            }),
    ensures
        latin_board(b, s.size as nat),
        forall|x: int, y: int|
            #![trigger b[x + y * s.size]]
            0 <= x < s.size && 0 <= y < s.size ==> header_allows(
                h,
                s.size as nat,
                x,
                y,
                b[x + y * s.size],
            ),
{
    broadcast use lemma_same_dom;

    let n = s.size as nat;
    let size = s.size as int;
    assert forall|k: int| 0 <= k < b.len() implies 1 <= #[trigger] b[k] <= n by {
        assert(s.cells@[k].is_fixed());
        assert(b[k] == s.cells@[k].vals@[0]);
    }
    assert forall|x: int, y: int| 0 <= x < size && 0 <= y < size implies s.at(x, y).is_fixed() && (
    #[trigger] b[x + y * size]) == s.at(x, y).fixed_val() by {
        lemma_cell_index(size, x, y);
    }
    assert forall|x1: int, x2: int, y: int|
        #![trigger b[x1 + y * size], b[x2 + y * size]]
        0 <= x1 < x2 < size && 0 <= y < size implies b[x1 + y * size] != b[x2 + y * size] by {
        lemma_cell_index(size, x1, y);
        lemma_cell_index(size, x2, y);
        assert(s.settled(x1, y));
        lemma_fixed_dom(s.at(x2, y));
        assert(s.dom_at(x2, y).contains(s.at(x2, y).fixed_val()));
    }
    assert forall|x: int, y1: int, y2: int|
        #![trigger b[x + y1 * size], b[x + y2 * size]]
        0 <= x < size && 0 <= y1 < y2 < size implies b[x + y1 * size] != b[x + y2 * size] by {
        lemma_cell_index(size, x, y1);
        lemma_cell_index(size, x, y2);
        assert(s.settled(x, y1));
        lemma_fixed_dom(s.at(x, y2));
        assert(s.dom_at(x, y2).contains(s.at(x, y2).fixed_val()));
    }
    assert forall|x: int, y: int|
        #![trigger b[x + y * size]]
        0 <= x < size && 0 <= y < size implies header_allows(h, n, x, y, b[x + y * size]) by {
        lemma_cell_index(size, x, y);
        lemma_fixed_dom(s.at(x, y));
        assert(s.dom_at(x, y).contains(b[x + y * size]));
        assert(base.dom_at(x, y).contains(b[x + y * size]));
        assert(header_allows_set(h, n, x, y).contains(b[x + y * size]));
    }
}

/// Weight of one search frame: heights of the branching cell not yet tried,
/// scaled so that any deeper exploration weighs strictly less.
pub open spec fn frame_weight(f: BacktrackingBoard) -> int {
    f.remaining() * vstd::arithmetic::power::pow(
        f.original.size + 1,
        (f.original.cells@.len() - f.current_index) as nat,
    )
}

/// Total weight of a search stack; it shrinks with every step of the search.
pub open spec fn stack_measure(s: Seq<BacktrackingBoard>) -> int
    decreases s.len(),
{
    if s.len() == 0 {
        0
    } else {
        stack_measure(s.drop_last()) + frame_weight(s.last())
    }
}

/// Frame weights are never negative.
pub proof fn lemma_weight_nonneg(f: BacktrackingBoard)
    requires
        f.wf(),
        f.current_subindex <= f.original.cells@[f.current_index as int].len,
    ensures
        frame_weight(f) >= 0,
{
    vstd::arithmetic::power::lemma_pow_positive(
        f.original.size + 1,
        (f.original.cells@.len() - f.current_index) as nat,
    );
    assert(frame_weight(f) >= 0) by (nonlinear_arith)
        requires
            f.remaining() >= 0,
            vstd::arithmetic::power::pow(
                f.original.size + 1,
                (f.original.cells@.len() - f.current_index) as nat,
            ) > 0,
    ;
}

/// Stack measures are never negative.
pub proof fn lemma_measure_nonneg(s: Seq<BacktrackingBoard>)
    requires
        forall|f: int| 0 <= f < s.len() ==> (#[trigger] s[f]).wf(),
    ensures
        stack_measure(s) >= 0,
    decreases s.len(),
{
    if s.len() > 0 {
        lemma_measure_nonneg(s.drop_last());
        lemma_weight_nonneg(s.last());
    }
}

/// A frame pushed on top of `top`, branching strictly deeper, weighs less
/// than one height-step of `top`.
pub proof fn lemma_push_weight(top: BacktrackingBoard, nf: BacktrackingBoard)
    requires
        top.wf(),
        nf.wf(),
        nf.original.size == top.original.size,
        nf.original.cells@.len() == top.original.cells@.len(),
        nf.current_index > top.current_index,
    ensures
        frame_weight(nf) < vstd::arithmetic::power::pow(
            top.original.size + 1,
            (top.original.cells@.len() - top.current_index) as nat,
        ),
{
    let b = top.original.size + 1;
    let et = (top.original.cells@.len() - top.current_index) as nat;
    let en = (nf.original.cells@.len() - nf.current_index) as nat;
    let n = top.original.size as int;
    vstd::arithmetic::power::lemma_pow_positive(b, en);
    vstd::arithmetic::power::lemma_pow_positive(b, et);
    vstd::arithmetic::power::lemma_pow_positive(b, (et - 1) as nat);
    if en < et - 1 {
        vstd::arithmetic::power::lemma_pow_strictly_increases(b as nat, en, (et - 1) as nat);
    }
    assert(vstd::arithmetic::power::pow(b, et) == b * vstd::arithmetic::power::pow(
        b,
        (et - 1) as nat,
    )) by {
        vstd::arithmetic::power::lemma_pow1(b);
        vstd::arithmetic::power::lemma_pow_adds(b, 1nat, (et - 1) as nat);
    }
    // remaining tried heights never exceed the board size
    assert(nf.remaining() <= n);
    assert(frame_weight(nf) < vstd::arithmetic::power::pow(b, et)) by (nonlinear_arith)
        requires
            frame_weight(nf) == nf.remaining() * vstd::arithmetic::power::pow(b, en),
            0 <= nf.remaining() <= n,
            0 < vstd::arithmetic::power::pow(b, en) <= vstd::arithmetic::power::pow(
                b,
                (et - 1) as nat,
            ),
            vstd::arithmetic::power::pow(b, et) == b * vstd::arithmetic::power::pow(
                b,
                (et - 1) as nat,
            ),
            b == n + 1,
    ;
}

} // verus!

verus! {

/// How starting a search may turn out before any stepping is needed.
pub enum SearchStart {
    /// Header pruning and propagation alone pinned every cell.
    Solved(Vec<u8>),
    /// Pruning or propagation emptied a domain: the header is unsatisfiable.
    NoSolution,
    /// The search is set up and ready to step.
    Running(SearchState),
}

/// The outcome of one search step.
pub enum SearchStatus {
    /// Every cell is pinned: this board solves the header.
    Solved(Vec<u8>),
    /// The stack is exhausted: the header has no solution.
    NoSolution,
    /// The search goes on.
    Pending,
}

/// A solving board is still reachable through frame `f`: the frame's
/// snapshot covers it, and the board's height for the branching cell has not
/// been tried yet.
pub open spec fn assigned(f: BacktrackingBoard, b: Seq<u8>) -> bool {
    &&& f.original.covers(b)
    &&& exists|j: int|
        #![trigger f.original.cells@[f.current_index as int].vals@[j]]
        f.current_subindex <= j < f.original.cells@[f.current_index as int].len
            && f.original.cells@[f.current_index as int].vals@[j] == b[f.current_index as int]
}

/// A board that solves the header survives pruning by that header: its
/// heights are in range, and by the soundness of the pruning rule every one
/// of them is still allowed.
proof fn lemma_solution_covered(fresh: BoardSet, pruned: BoardSet, h: Seq<u8>, b: Seq<u8>)
    requires
        fresh.wf(),
        pruned.wf(),
        pruned.size == fresh.size,
        pruned.cells@.len() == fresh.cells@.len(),
        forall|k: int|
            0 <= k < fresh.cells@.len() ==> (#[trigger] fresh.cells@[k]).dom()
                == crate::domain::range_set(fresh.size as nat),
        forall|x: int, y: int|
            pruned.valid(x, y) ==> #[trigger] pruned.dom_at(x, y) == fresh.dom_at(x, y).intersect(
                header_allows_set(h, fresh.size as nat, x, y),
            ),
        solved_board(b, h, fresh.size as nat),
    ensures
        pruned.candidate(b),
{
    let n = fresh.size as nat;
    let size = fresh.size as int;
    assert forall|k: int|
        0 <= k < pruned.cells@.len() implies (#[trigger] pruned.cells@[k]).dom().contains(
        b[k],
    ) by {
        lemma_flat_coords(size, k);
        let x = k % size;
        let y = k / size;
        assert(fresh.cells@[k].dom().contains(b[k]));
        assert(fresh.at(x, y) == fresh.cells@[k]);
        crate::laws::lemma_solution_allowed(b, n, x, y);
        assert(header_allows(h, n, x, y, b[x + y * size]));
        assert(header_allows_set(h, n, x, y).contains(b[k]));
        assert(pruned.dom_at(x, y).contains(b[k]));
        assert(pruned.at(x, y) == pruned.cells@[k]);
    }
    assert(crate::check::rows_distinct(b, pruned.size as nat));
    assert(crate::check::cols_distinct(b, pruned.size as nat));
}

/// Compares two byte strings for equality.
fn same_bytes(a: &Vec<u8>, b: &[u8]) -> (r: bool)
    ensures
        r == (a@ == b@),
{
    if a.len() != b.len() {
        proof {
            assert(a@ != b@);
        }
        return false;
    }
    let n = a.len();
    let mut i: usize = 0;
    while i < n
        invariant
            0 <= i <= n,
            n == a@.len(),
            n == b@.len(),
            forall|k: int| 0 <= k < i ==> a@[k] == b@[k],
        decreases n - i,
    {
        if a[i] != b[i] {
            proof {
                assert(a@[i as int] != b@[i as int]);
            }
            return false;
        }
        i = i + 1;
    }
    proof {
        assert(a@ =~= b@);
    }
    true
}

/// A resumable backtracking search: a stack of frames over a header-pruned
/// base store.  Between steps the current partial board can be read out,
/// which is what animation displays.
pub struct SearchState {
    /// The stack of search frames.
    pub backtrackers: Vec<BacktrackingBoard>,
    /// Scratch worklist reused by propagation.
    pub buf: Vec<(usize, usize)>,
    /// The board size.
    pub size: usize,
    /// The store after header pruning and initial propagation.
    pub base: Ghost<BoardSet>,
    /// The header being solved.
    pub header: Vec<u8>,
}

impl SearchState {
    /// Search invariant.  Its last clause is the completeness of the search:
    /// every board that solves the header is still reachable through some
    /// frame of the stack, so an exhausted stack means no solution exists.
    pub open spec fn wf(self) -> bool {
        &&& 1 <= self.size <= 255
        &&& self.base@.wf()
        &&& self.base@.size == self.size
        &&& self.header@.len() == 4 * self.size
        &&& forall|x: int, y: int|
            self.base@.valid(x, y) ==> (#[trigger] self.base@.dom_at(x, y)).subset_of(
                header_allows_set(self.header@, self.size as nat, x, y),
            )
        &&& self.backtrackers@.len() >= 1
        &&& forall|f: int|
            0 <= f < self.backtrackers@.len() ==> {
                let b = #[trigger] self.backtrackers@[f];
                &&& b.wf()
                &&& b.original.size == self.size
                &&& b.original.fixpoint()
                &&& b.original.all_nonempty()
                &&& b.original.narrows(self.base@)
            }
        &&& forall|f: int|
            0 <= f < self.backtrackers@.len() - 1 ==> (
            #[trigger] self.backtrackers@[f]).current_index
                < self.backtrackers@[f + 1].current_index
        &&& forall|b: Seq<u8>|
            #[trigger] solved_board(b, self.header@, self.size as nat) ==> exists|f: int|
                0 <= f < self.backtrackers@.len() && #[trigger] assigned(
                    self.backtrackers@[f],
                    b,
                )
    }

    /// The termination measure of the search.
    pub open spec fn measure(self) -> int {
        stack_measure(self.backtrackers@)
    }

    /// Prepares the search for a header: prunes a fresh store by the header,
    /// propagates, and either finishes right away or returns a runnable
    /// search.  `NoSolution` is returned only when no board solves the
    /// header.
    #[verifier::rlimit(100)]
    pub fn new(header: &[u8], size: usize) -> (r: SearchStart)
        requires
            1 <= size <= 255,
            header@.len() == 4 * size,
            forall|k: int| 0 <= k < header@.len() ==> 1 <= #[trigger] header@[k] <= size,
        ensures
            match r {
                SearchStart::Solved(b) => solved_board(b@, header@, size as nat),
                SearchStart::NoSolution => forall|b: Seq<u8>|
                    !solved_board(b, header@, size as nat),
                SearchStart::Running(st) => {
                    &&& st.wf()
                    &&& st.size == size
                    &&& st.header@ == header@
                },
            },
    {
        let ghost n = size as nat;
        let mut buf: Vec<(usize, usize)> = Vec::new();
        let mut set = BoardSet::new(size);
        let ghost fresh = set;
        proof {
            // A fresh full store is trivially consistent with an empty
            // worklist: a cell can only be pinned when the board has a
            // single height, and then its row and column hold no other cell.
            assert forall|x: int, y: int|
                set.valid(x, y) && (#[trigger] set.at(x, y)).is_fixed() && !buf@.contains(
                    (x as usize, y as usize),
                ) implies set.settled(x, y) by {
                lemma_cell_index(size as int, x, y);
                assert(set.cells@[x + y * size].len == size);
            }
        }
        if set.account_for_header(header, &mut buf).is_err() {
            proof {
                // Some cell has no height allowed by the header; a solving
                // board would put an allowed height there.
                assert(exists|x: int, y: int|
                    fresh.valid(x, y) && !crate::domain::header_satisfiable_at(
                        fresh,
                        header@,
                        x,
                        y,
                    )) by {
                    if forall|x: int, y: int|
                        fresh.valid(x, y) ==> #[trigger] crate::domain::header_satisfiable_at(
                            fresh,
                            header@,
                            x,
                            y,
                        ) {
                        assert(false);
                    }
                }
                let (x, y) = choose|x: int, y: int|
                    fresh.valid(x, y) && !crate::domain::header_satisfiable_at(
                        fresh,
                        header@,
                        x,
                        y,
                    );
                assert forall|b: Seq<u8>| !solved_board(b, header@, n) by {
                    if solved_board(b, header@, n) {
                        lemma_cell_index(size as int, x, y);
                        crate::laws::lemma_solution_allowed(b, n, x, y);
                        assert(fresh.cells@[x + y * size].dom().contains(b[x + y * size]));
                        assert(fresh.at(x, y) == fresh.cells@[x + y * size]);
                        assert(fresh.dom_at(x, y).contains(b[x + y * size]));
                        assert(crate::domain::header_satisfiable_at(fresh, header@, x, y));
                        assert(false);
                    }
                }
            }
            return SearchStart::NoSolution;
        }
        let ghost pruned = set;
        proof {
            assert forall|b: Seq<u8>|
                solved_board(b, header@, n) implies #[trigger] pruned.candidate(b) by {
                lemma_solution_covered(fresh, pruned, header@, b);
            }
        }
        if set.remove_duplicates_in(&mut buf).is_err() {
            proof {
                assert forall|b: Seq<u8>| !solved_board(b, header@, n) by {
                    if solved_board(b, header@, n) {
                        assert(pruned.candidate(b));
                        assert(false);
                    }
                }
            }
            return SearchStart::NoSolution;
        }
        let ghost base = set;
        proof {
            assert forall|x: int, y: int| base.valid(x, y) implies (#[trigger] base.dom_at(
                x,
                y,
            )).subset_of(header_allows_set(header@, size as nat, x, y)) by {
                lemma_cell_index(size as int, x, y);
                assert(base.cells@[x + y * size].dom().subset_of(
                    pruned.cells@[x + y * size].dom(),
                ));
                assert(pruned.dom_at(x, y) == fresh.dom_at(x, y).intersect(
                    header_allows_set(header@, size as nat, x, y),
                ));
            }
            // Every solving board is still covered after propagation.
            assert forall|b: Seq<u8>|
                solved_board(b, header@, n) implies #[trigger] base.covers(b) by {
                assert(pruned.candidate(b));
            }
        }
        let header_vec = vstd::slice::slice_to_vec(header);
        match BacktrackingBoard::new(set) {
            Err(complete) => {
                let board = complete.create_board();
                proof {
                    assert forall|k: int|
                        0 <= k < complete.cells@.len() implies (
                        #[trigger] complete.cells@[k]).dom().subset_of(
                        complete.cells@[k].dom(),
                    ) by {}
                    assert(complete.narrows(complete));
                    lemma_complete_board(complete, complete, header@, board@);
                }
                let derived = crate::generate::solution_to_header(board.as_slice(), size as u8);
                if same_bytes(&derived, header) {
                    proof {
                        assert(crate::visibility::header_of(board@, n) == header@);
                    }
                    SearchStart::Solved(board)
                } else {
                    proof {
                        // Pruning pinned every cell to this one board, and
                        // its view counts do not match: nothing solves the
                        // header.
                        assert forall|b: Seq<u8>| !solved_board(b, header@, n) by {
                            if solved_board(b, header@, n) {
                                assert(base.covers(b));
                                assert forall|k: int| 0 <= k < b.len() implies b[k] == board@[k] by {
                                    assert(complete.cells@[k].dom().contains(b[k]));
                                    crate::domain::lemma_fixed_dom(complete.cells@[k]);
                                }
                                assert(b =~= board@);
                                assert(crate::visibility::header_of(board@, n) == header@);
                                assert(derived@ == header@);
                                assert(false);
                            }
                        }
                    }
                    SearchStart::NoSolution
                }
            },
            Ok(bt) => {
                proof {
                    lemma_same_set_props(bt.original, base);
                }
                let mut backtrackers: Vec<BacktrackingBoard> = Vec::new();
                backtrackers.push(bt);
                let st = SearchState { backtrackers, buf, size, base: Ghost(base), header: header_vec };
                proof {
                    let frame = st.backtrackers@[0];
                    let ci = frame.current_index as int;
                    assert forall|b: Seq<u8>|
                        #[trigger] solved_board(b, st.header@, st.size as nat) implies exists|
                        f: int,
                    |
                        0 <= f < st.backtrackers@.len() && #[trigger] assigned(
                            st.backtrackers@[f],
                            b,
                        ) by {
                        assert(base.covers(b));
                        crate::domain::lemma_covers_same(frame.original, base, b);
                        assert(frame.original.cells@[ci].dom().contains(b[ci]));
                        let j = choose|j: int|
                            0 <= j < frame.original.cells@[ci].len && frame.original.cells@[
                            ci].vals@[j] == b[ci];
                        assert(frame.original.cells@[ci].vals@[j] == b[ci]);
                        assert(assigned(st.backtrackers@[0], b));
                    }
                }
                SearchStart::Running(st)
            },
        }
    }

    /// The board as currently decided: pinned cells of the top frame's
    /// store carry their height, undecided cells read `0`.
    pub fn current_board(&self) -> (r: Vec<u8>)
        requires
            self.wf(),
        ensures
            r@.len() == self.size * self.size,
            forall|k: int| 0 <= k < r@.len() ==> #[trigger] r@[k] <= self.size,
            forall|k: int|
                0 <= k < r@.len() ==> #[trigger] r@[k] == (if self.backtrackers@.last().set.cells@[
                k].is_fixed() {
                    self.backtrackers@.last().set.cells@[k].fixed_val()
                } else {
                    0u8
                }),
    {
        let last = self.backtrackers.len() - 1;
        let r = self.backtrackers[last].set.create_board();
        proof {
            let s = self.backtrackers@[last as int].set;
            assert forall|k: int| 0 <= k < r@.len() implies #[trigger] r@[k] <= self.size by {
                if s.cells@[k].is_fixed() {
                    assert(1 <= s.cells@[k].vals@[0] <= s.size);
                }
            }
        }
        r
    }

    /// Runs one step of the backtracking search: tries the next height at
    /// the top frame, pushes a deeper frame on success, checks the derived
    /// view counts once every cell is pinned, and drops the frame when its
    /// heights are exhausted.  `NoSolution` is reported only when no board
    /// solving the header can remain.
    #[verifier::rlimit(100)]
    pub fn step(&mut self) -> (r: SearchStatus)
        requires
            old(self).wf(),
        ensures
            final(self).size == old(self).size,
            final(self).header@ == old(self).header@,
            match r {
                SearchStatus::Solved(b) => solved_board(
                    b@,
                    old(self).header@,
                    old(self).size as nat,
                ),
                SearchStatus::NoSolution => forall|b: Seq<u8>|
                    !solved_board(b, old(self).header@, old(self).size as nat),
                SearchStatus::Pending => {
                    &&& final(self).wf()
                    &&& (final(self).measure() < old(self).measure() || (final(self).measure()
                        == old(self).measure() && final(self).backtrackers@.len() < old(
                        self,
                    ).backtrackers@.len()))
                },
            },
    {
        broadcast use lemma_same_dom;

        let ghost pre = *old(self);
        let ghost stack0 = self.backtrackers@;
        let last = self.backtrackers.len() - 1;
        let ghost top = stack0[last as int];
        let ghost size = self.size as int;
        let ghost n = self.size as nat;
        let ghost h = pre.header@;
        let ghost tci = top.current_index as int;
        let ghost sub0 = top.current_subindex as int;

        let bt = &mut self.backtrackers[last];
        let r = bt.try_backtrack(&mut self.buf);
        let ghost stack1 = self.backtrackers@;
        proof {
            assert(stack1 =~= stack0.update(last as int, stack1[last as int]));
            assert(stack1.drop_last() =~= stack0.drop_last());
        }

        match r {
            Err(BacktrackError::NoSolution) => {
                proof {
                    assert(stack1.last() == stack1[last as int]);
                    assert(stack1.last().remaining() == 0);
                    let b2 = top.original.size + 1;
                    let e = (top.original.cells@.len() - top.current_index) as nat;
                    assert(frame_weight(stack1.last()) == 0) by (nonlinear_arith)
                        requires
                            frame_weight(stack1.last()) == stack1.last().remaining()
                                * vstd::arithmetic::power::pow(b2, e),
                            stack1.last().remaining() == 0,
                    ;
                    assert(stack_measure(stack1) == stack_measure(stack0.drop_last()));
                }
                self.backtrackers.pop();
                if self.backtrackers.len() == 0 {
                    proof {
                        // The only frame ran out of heights: nothing that
                        // solves the header was reachable through it.
                        assert forall|b: Seq<u8>| !solved_board(b, h, n) by {
                            if solved_board(b, h, n) {
                                let f0 = choose|f: int|
                                    0 <= f < stack0.len() && #[trigger] assigned(stack0[f], b);
                                assert(f0 == last as int);
                                assert(assigned(top, b));
                                assert(false);
                            }
                        }
                    }
                    return SearchStatus::NoSolution;
                }
                proof {
                    assert(self.backtrackers@ =~= stack1.drop_last());
                    assert(self.measure() == stack_measure(stack0.drop_last()));
                    assert(stack_measure(stack0) == stack_measure(stack0.drop_last())
                        + frame_weight(stack0.last()));
                    lemma_weight_nonneg(stack0.last());
                    assert(self.measure() <= pre.measure());
                    // Boards reachable through the dropped frame do not
                    // exist; all others keep their frame.
                    assert forall|b: Seq<u8>|
                        #[trigger] solved_board(b, h, n) implies exists|f: int|
                            0 <= f < self.backtrackers@.len() && #[trigger] assigned(
                                self.backtrackers@[f],
                                b,
                            ) by {
                        let f0 = choose|f: int|
                            0 <= f < stack0.len() && #[trigger] assigned(stack0[f], b);
                        if f0 == last as int {
                            assert(assigned(top, b));
                            assert(false);
                        }
                        assert(self.backtrackers@[f0] == stack0[f0]);
                        assert(assigned(self.backtrackers@[f0], b));
                    }
                }
                SearchStatus::Pending
            },
            Err(BacktrackError::Retry) => {
                proof {
                    let b2 = top.original.size + 1;
                    let e = (top.original.cells@.len() - top.current_index) as nat;
                    vstd::arithmetic::power::lemma_pow_positive(b2, e);
                    assert(frame_weight(stack1.last()) == frame_weight(top)
                        - vstd::arithmetic::power::pow(b2, e)) by (nonlinear_arith)
                        requires
                            frame_weight(top) == (top.original.cells@[top.current_index as int].len
                                - top.current_subindex) * vstd::arithmetic::power::pow(b2, e),
                            frame_weight(stack1.last()) == (top.original.cells@[top.current_index
                                as int].len - (top.current_subindex + 1))
                                * vstd::arithmetic::power::pow(b2, e),
                    ;
                    assert(self.measure() < pre.measure());
                    // The tried height led to a contradiction, so no solving
                    // board uses it: the rest stay reachable.
                    assert forall|b: Seq<u8>|
                        #[trigger] solved_board(b, h, n) implies exists|f: int|
                            0 <= f < self.backtrackers@.len() && #[trigger] assigned(
                                self.backtrackers@[f],
                                b,
                            ) by {
                        let f0 = choose|f: int|
                            0 <= f < stack0.len() && #[trigger] assigned(stack0[f], b);
                        if f0 < last as int {
                            assert(self.backtrackers@[f0] == stack0[f0]);
                            assert(assigned(self.backtrackers@[f0], b));
                        } else {
                            assert(assigned(top, b));
                            let j = choose|j: int|
                                top.current_subindex <= j < top.original.cells@[tci].len && (
                                #[trigger] top.original.cells@[tci].vals@[j]) == b[tci];
                            if j == sub0 {
                                assert(crate::check::rows_distinct(b, top.original.size as nat));
                                assert(crate::check::cols_distinct(b, top.original.size as nat));
                                assert(top.original.candidate(b));
                                assert(false);
                            }
                            assert(stack1[last as int].original == top.original);
                            assert(top.original.cells@[tci].vals@[j] == b[tci]);
                            assert(assigned(stack1[last as int], b));
                        }
                    }
                }
                SearchStatus::Pending
            },
            Ok(()) => {
                let snap = self.backtrackers[last].set.clone();
                proof {
                    let s2 = self.backtrackers@[last as int].set;
                    lemma_same_set_props(snap, s2);
                    // measure decrease: the cursor moved on
                    let b2 = top.original.size + 1;
                    let e = (top.original.cells@.len() - top.current_index) as nat;
                    vstd::arithmetic::power::lemma_pow_positive(b2, e);
                    assert(frame_weight(stack1.last()) == frame_weight(top)
                        - vstd::arithmetic::power::pow(b2, e)) by (nonlinear_arith)
                        requires
                            frame_weight(top) == (top.original.cells@[top.current_index as int].len
                                - top.current_subindex) * vstd::arithmetic::power::pow(b2, e),
                            frame_weight(stack1.last()) == (top.original.cells@[top.current_index
                                as int].len - (top.current_subindex + 1))
                                * vstd::arithmetic::power::pow(b2, e),
                    ;
                    assert(stack_measure(stack1) < stack_measure(stack0));
                }
                match BacktrackingBoard::new(snap) {
                    Err(complete) => {
                        let board = complete.create_board();
                        proof {
                            let s2 = self.backtrackers@[last as int].set;
                            // The completed store narrows the base store.
                            assert forall|k: int|
                                0 <= k < complete.cells@.len() implies (
                                #[trigger] complete.cells@[k]).dom().subset_of(
                                pre.base@.cells@[k].dom(),
                            ) && complete.cells@[k].len <= pre.base@.cells@[k].len by {
                                assert(complete.cells@[k].same(s2.cells@[k]));
                                assert(s2.cells@[k].dom().subset_of(
                                    top.original.cells@[k].dom(),
                                ));
                                assert(top.original.cells@[k].dom().subset_of(
                                    pre.base@.cells@[k].dom(),
                                ));
                            }
                            assert(complete.narrows(pre.base@));
                            lemma_complete_board(complete, pre.base@, pre.header@, board@);
                        }
                        let derived = crate::generate::solution_to_header(
                            board.as_slice(),
                            self.size as u8,
                        );
                        let matches_header = same_bytes(&derived, self.header.as_slice());
                        if matches_header {
                            proof {
                                assert(crate::visibility::header_of(board@, n) == h);
                            }
                            SearchStatus::Solved(board)
                        } else {
                            proof {
                                // This completion fails the view counts: no
                                // solving board used the tried height, and
                                // the rest stay reachable.
                                let s2 = self.backtrackers@[last as int].set;
                                assert forall|b: Seq<u8>|
                                    #[trigger] solved_board(b, h, n) implies exists|f: int|
                                        0 <= f < self.backtrackers@.len() && #[trigger] assigned(
                                            self.backtrackers@[f],
                                            b,
                                        ) by {
                                    let f0 = choose|f: int|
                                        0 <= f < stack0.len() && #[trigger] assigned(stack0[f], b);
                                    if f0 < last as int {
                                        assert(self.backtrackers@[f0] == stack0[f0]);
                                        assert(assigned(self.backtrackers@[f0], b));
                                    } else {
                                        assert(assigned(top, b));
                                        let j = choose|j: int|
                                            top.current_subindex <= j < top.original.cells@[
                                            tci].len && (#[trigger] top.original.cells@[
                                        tci].vals@[j]) == b[tci];
                                        if j == sub0 {
                                            assert(crate::check::rows_distinct(
                                                b,
                                                top.original.size as nat,
                                            ));
                                            assert(crate::check::cols_distinct(
                                                b,
                                                top.original.size as nat,
                                            ));
                                            assert(top.original.candidate(b));
                                            assert(s2.covers(b));
                                            crate::domain::lemma_covers_same(snap, s2, b);
                                            assert(complete.covers(b));
                                            assert forall|k: int|
                                                0 <= k < b.len() implies b[k] == board@[k] by {
                                                assert(complete.cells@[k].dom().contains(b[k]));
                                                crate::domain::lemma_fixed_dom(
                                                    complete.cells@[k],
                                                );
                                            }
                                            assert(b =~= board@);
                                            assert(crate::visibility::header_of(board@, n) == h);
                                            assert(derived@ == h);
                                            assert(false);
                                        }
                                        assert(stack1[last as int].original == top.original);
                                        assert(top.original.cells@[tci].vals@[j] == b[tci]);
                                        assert(assigned(stack1[last as int], b));
                                    }
                                }
                            }
                            SearchStatus::Pending
                        }
                    },
                    Ok(nb) => {
                        proof {
                            let s2 = self.backtrackers@[last as int].set;
                            lemma_same_set_props(nb.original, snap);
                            // The new frame branches strictly deeper.
                            if nb.current_index <= top.current_index {
                                assert(s2.cells@[nb.current_index as int].is_fixed());
                                assert(snap.cells@[nb.current_index as int].is_fixed());
                                assert(false);
                            }
                            // The new frame's snapshot still narrows the base.
                            assert forall|k: int|
                                0 <= k < nb.original.cells@.len() implies (
                                #[trigger] nb.original.cells@[k]).dom().subset_of(
                                pre.base@.cells@[k].dom(),
                            ) && nb.original.cells@[k].len <= pre.base@.cells@[k].len by {
                                assert(nb.original.cells@[k].same(snap.cells@[k]));
                                assert(snap.cells@[k].same(s2.cells@[k]));
                                assert(s2.cells@[k].dom().subset_of(
                                    top.original.cells@[k].dom(),
                                ));
                                assert(top.original.cells@[k].dom().subset_of(
                                    pre.base@.cells@[k].dom(),
                                ));
                            }
                            assert(nb.original.narrows(pre.base@));
                        }
                        let ghost stack2 = self.backtrackers@;
                        self.backtrackers.push(nb);
                        proof {
                            assert(self.backtrackers@.drop_last() =~= stack2);
                            lemma_push_weight(top, nb);
                            assert(self.measure() == stack_measure(stack2) + frame_weight(nb));
                            assert(self.measure() < pre.measure());
                            // Stack ordering still strictly increases.
                            assert forall|f: int|
                                0 <= f < self.backtrackers@.len() - 1 implies (
                                #[trigger] self.backtrackers@[f]).current_index
                                < self.backtrackers@[f + 1].current_index by {
                                if f < self.backtrackers@.len() - 2 {
                                    assert(stack0[f].current_index < stack0[f
                                        + 1].current_index);
                                }
                            }
                            // Every solving board stays reachable: through
                            // its old frame, or through the new one if its
                            // height was the one just tried.
                            let s2 = stack2[last as int].set;
                            let nci = nb.current_index as int;
                            assert forall|b: Seq<u8>|
                                #[trigger] solved_board(b, h, n) implies exists|f: int|
                                    0 <= f < self.backtrackers@.len() && #[trigger] assigned(
                                        self.backtrackers@[f],
                                        b,
                                    ) by {
                                let f0 = choose|f: int|
                                    0 <= f < stack0.len() && #[trigger] assigned(stack0[f], b);
                                if f0 < last as int {
                                    assert(self.backtrackers@[f0] == stack0[f0]);
                                    assert(assigned(self.backtrackers@[f0], b));
                                } else {
                                    assert(assigned(top, b));
                                    let j = choose|j: int|
                                        top.current_subindex <= j < top.original.cells@[tci].len
                                            && (#[trigger] top.original.cells@[tci].vals@[j])
                                            == b[tci];
                                    if j == sub0 {
                                        assert(crate::check::rows_distinct(
                                            b,
                                            top.original.size as nat,
                                        ));
                                        assert(crate::check::cols_distinct(
                                            b,
                                            top.original.size as nat,
                                        ));
                                        assert(top.original.candidate(b));
                                        assert(s2.covers(b));
                                        crate::domain::lemma_covers_same(snap, s2, b);
                                        crate::domain::lemma_covers_same(nb.original, snap, b);
                                        assert(nb.original.cells@[nci].dom().contains(b[nci]));
                                        let j2 = choose|j2: int|
                                            0 <= j2 < nb.original.cells@[nci].len
                                                && nb.original.cells@[nci].vals@[j2] == b[nci];
                                        assert(nb.original.cells@[nci].vals@[j2] == b[nci]);
                                        assert(assigned(nb, b));
                                        assert(self.backtrackers@[self.backtrackers@.len() - 1]
                                            == nb);
                                    } else {
                                        assert(self.backtrackers@[last as int] == stack1[last
                                            as int]);
                                        assert(stack1[last as int].original == top.original);
                                        assert(top.original.cells@[tci].vals@[j] == b[tci]);
                                        assert(assigned(stack1[last as int], b));
                                    }
                                }
                            }
                        }
                        SearchStatus::Pending
                    },
                }
            },
        }
    }
}

} // verus!

verus! {

/// Solves the provided header: header pruning, initial propagation, then
/// backtracking search, polling the interrupt flag between steps.
///
/// A returned board is complete, duplicate-free along rows and columns, and
/// its derived view counts equal the header: it solves the puzzle.
/// `Err(NoSolution)` is returned only when no board solves the header;
/// `Err(Interrupted)` reports a raised interrupt flag.
pub fn solve(header: &[u8], size: usize, stop: &core::sync::atomic::AtomicBool) -> (r: Result<
    Vec<u8>,
    SolutionError,
>)
    requires
        1 <= size <= 255,
        header@.len() == 4 * size,
        forall|k: int| 0 <= k < header@.len() ==> 1 <= #[trigger] header@[k] <= size,
    ensures
        match r {
            Ok(b) => solved_board(b@, header@, size as nat),
            Err(SolutionError::NoSolution) => forall|b: Seq<u8>|
                !solved_board(b, header@, size as nat),
            Err(SolutionError::Interrupted) => true,
        },
{
    match SearchState::new(header, size) {
        SearchStart::Solved(b) => Ok(b),
        SearchStart::NoSolution => Err(SolutionError::NoSolution),
        SearchStart::Running(st) => {
            let mut st = st;
            loop
                invariant
                    st.wf(),
                    st.size == size,
                    st.header@ == header@,
                decreases stack_measure(st.backtrackers@), st.backtrackers@.len(),
            {
                if crate::sigint::occured(stop) {
                    return Err(SolutionError::Interrupted);
                }
                proof {
                    lemma_measure_nonneg(st.backtrackers@);
                }
                match st.step() {
                    SearchStatus::Solved(b) => {
                        return Ok(b);
                    },
                    SearchStatus::NoSolution => {
                        return Err(SolutionError::NoSolution);
                    },
                    SearchStatus::Pending => {
                        proof {
                            lemma_measure_nonneg(st.backtrackers@);
                        }
                    },
                }
            }
        },
    }
}

} // verus!
