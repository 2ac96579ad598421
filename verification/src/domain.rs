//! The domain store of the solver: for every cell of the board, the set of
//! heights that the cell may still take.

use vstd::prelude::*;

verus! {

/// Signals that the constraints admit no assignment.
#[derive(Debug)]
pub struct NoSolution;

/// The heights still permitted for one board cell.
///
/// `vals` always keeps one slot per height of the board; the first `len`
/// slots hold the currently permitted heights, in arbitrary order and without
/// repetition.
pub struct BoardCell {
    /// How many heights are currently permitted.
    pub len: usize,
    /// Backing storage; positions `0..len` are meaningful.
    pub vals: Vec<u8>,
}

impl BoardCell {
    /// Structural invariant: the permitted prefix fits and holds no height
    /// twice.
    pub open spec fn inv(self) -> bool {
        &&& self.len <= self.vals@.len()
        &&& forall|i: int, j: int|
            0 <= i < j < self.len ==> self.vals@[i] != self.vals@[j]
    }

    /// Invariant tied to a board of size `n`: exactly `n` slots, and every
    /// permitted height lies in `1..=n`.
    pub open spec fn wf(self, n: nat) -> bool {
        &&& self.inv()
        &&& self.vals@.len() == n
        &&& forall|i: int| 0 <= i < self.len ==> 1 <= #[trigger] self.vals@[i] <= n
    }

    /// The set of permitted heights.
    pub open spec fn dom(self) -> Set<u8> {
        Set::new(|v: u8| exists|i: int| 0 <= i < self.len && self.vals@[i] == v)
    }

    /// Two cells carry the same information: same backing length and same
    /// permitted prefix.
    pub open spec fn same(self, other: BoardCell) -> bool {
        self.len == other.len && self.vals@ == other.vals@
    }

    /// Whether the cell is pinned to a single height.
    pub open spec fn is_fixed(self) -> bool {
        self.len == 1
    }

    /// The height of a pinned cell.
    pub open spec fn fixed_val(self) -> u8 {
        self.vals@[0]
    }

    /// Position of `value` in the permitted prefix, if present.
    fn position_of(&self, value: u8) -> (r: Option<usize>)
        requires
            self.inv(),
        ensures
            match r {
                Some(p) => p < self.len && self.vals@[p as int] == value,
                None => !self.dom().contains(value),
            },
    {
        let mut i: usize = 0;
        while i < self.len
            invariant
                0 <= i <= self.len,
                self.inv(),
                forall|k: int| 0 <= k < i ==> self.vals@[k] != value,
            decreases self.len - i,
        {
            if self.vals[i] == value {
                return Some(i);
            }
            i = i + 1;
        }
        None
    }

    /// Returns whether this cell still permits `value`.
    pub fn accepts(&self, value: u8) -> (r: bool)
        requires
            self.inv(),
        ensures
            r == self.dom().contains(value),
    {
        self.position_of(value).is_some()
    }

    /// Returns the number of heights still permitted for this cell.
    pub fn count(&self) -> (r: usize)
        ensures
            r == self.len,
    {
        self.len
    }

    /// Returns the heights currently permitted for this cell.
    pub fn slice(&self) -> (r: &[u8])
        requires
            self.inv(),
        ensures
            r@ == self.vals@.subrange(0, self.len as int),
    {
        vstd::slice::slice_subrange(self.vals.as_slice(), 0, self.len)
    }

    /// Pins the cell to `value`.
    ///
    /// Fails, leaving the cell unchanged, iff the cell no longer permits
    /// `value`.
    pub fn set(&mut self, value: u8) -> (r: Result<(), NoSolution>)
        requires
            old(self).inv(),
        ensures
            r.is_ok() <==> old(self).dom().contains(value),
            r.is_ok() ==> final(self).dom() == set![value] && final(self).is_fixed()
                && final(self).fixed_val() == value,
            r.is_err() ==> final(self).same(*old(self)),
            final(self).inv(),
            final(self).vals@.len() == old(self).vals@.len(),
            final(self).dom().subset_of(old(self).dom()),
            final(self).len <= old(self).len,
    {
        if self.accepts(value) {
            self.vals[0] = value;
            self.len = 1;
            proof {
                assert(self.dom() =~= set![value]);
                assert forall|v: u8| self.dom().contains(v) implies old(self).dom().contains(
                    v,
                ) by {
                    assert(v == value);
                }
            }
            Ok(())
        } else {
            Err(NoSolution)
        }
    }

    /// Withdraws `value` from the permitted heights.
    ///
    /// Returns whether the value was present (and hence removed).
    pub fn forbid(&mut self, value: u8) -> (r: bool)
        requires
            old(self).inv(),
        ensures
            r == old(self).dom().contains(value),
            final(self).dom() == old(self).dom().remove(value),
            final(self).inv(),
            final(self).vals@.len() == old(self).vals@.len(),
            final(self).len == old(self).len - (if r {
                1int
            } else {
                0int
            }),
            !r ==> final(self).same(*old(self)),
            forall|i: int|
                0 <= i < final(self).len ==> old(self).dom().contains(
                    #[trigger] final(self).vals@[i],
                ),
    {
        match self.position_of(value) {
            Some(p) => {
                let last = self.vals[self.len - 1];
                self.vals[p] = last;
                self.len = self.len - 1;
                proof {
                    let pre = *old(self);
                    assert forall|v: u8| self.dom().contains(v) implies pre.dom().remove(
                        value,
                    ).contains(v) by {
                        let i = choose|i: int|
                            0 <= i < self.len && self.vals@[i] == v;
                        if i == p {
                            assert(pre.vals@[pre.len - 1] == v);
                        } else {
                            assert(pre.vals@[i] == v);
                        }
                        assert(v != value);
                    }
                    assert forall|v: u8|
                        pre.dom().remove(value).contains(v) implies self.dom().contains(v) by {
                        let i = choose|i: int|
                            0 <= i < pre.len && pre.vals@[i] == v;
                        if i == pre.len - 1 {
                            if p < self.len {
                                assert(self.vals@[p as int] == v);
                            } else {
                                // p was the last slot, so v == value, excluded.
                                assert(false);
                            }
                        } else {
                            assert(i != p);
                            assert(self.vals@[i] == v);
                        }
                    }
                    assert(self.dom() =~= pre.dom().remove(value));
                    assert forall|i: int|
                        0 <= i < self.len implies pre.dom().contains(
                        #[trigger] self.vals@[i],
                    ) by {
                        if i == p {
                            assert(pre.vals@[pre.len - 1] == self.vals@[i]);
                        } else {
                            assert(pre.vals@[i] == self.vals@[i]);
                        }
                    }
                }
                true
            },
            None => {
                proof {
                    assert(self.dom() =~= old(self).dom().remove(value));
                }
                false
            },
        }
    }
}

impl Clone for BoardCell {
    /// Clones preserve the cell exactly.
    fn clone(&self) -> (res: Self)
        ensures
            res.same(*self),
    {
        let vals = self.vals.clone();
        proof {
            assert(vals@ =~= self.vals@);
        }
        BoardCell { len: self.len, vals }
    }
}

} // verus!

verus! {

/// The heights `1..=n`.
pub open spec fn range_set(n: nat) -> Set<u8> {
    Set::new(|v: u8| 1 <= v <= n)
}

/// The domain store: one [`BoardCell`] per cell of an `size`x`size` board,
/// in row-major order (cell `(x, y)` lives at index `x + y * size`).
pub struct BoardSet {
    /// The board size; every height lies in `1..=size`.
    pub size: usize,
    /// The per-cell domains.
    pub cells: Vec<BoardCell>,
}

impl BoardSet {
    /// Structural invariant of the whole store.
    pub open spec fn wf(self) -> bool {
        &&& 1 <= self.size <= 255
        &&& self.cells@.len() == self.size * self.size
        &&& forall|i: int|
            0 <= i < self.cells@.len() ==> (#[trigger] self.cells@[i]).wf(self.size as nat)
    }

    /// Flat index of cell `(x, y)`.
    pub open spec fn spec_idx(self, x: int, y: int) -> int {
        x + y * self.size
    }

    /// The domain cell at `(x, y)`.
    pub open spec fn at(self, x: int, y: int) -> BoardCell {
        self.cells@[self.spec_idx(x, y)]
    }

    /// The set of heights still permitted at `(x, y)`.
    pub open spec fn dom_at(self, x: int, y: int) -> Set<u8> {
        self.at(x, y).dom()
    }

    /// Valid cell coordinates.
    pub open spec fn valid(self, x: int, y: int) -> bool {
        0 <= x < self.size && 0 <= y < self.size
    }

    /// Two stores carry the same information, cell for cell.
    pub open spec fn same_set(self, other: BoardSet) -> bool {
        &&& self.size == other.size
        &&& self.cells@.len() == other.cells@.len()
        &&& forall|i: int|
            0 <= i < self.cells@.len() ==> (#[trigger] self.cells@[i]).same(other.cells@[i])
    }

    /// Every domain of `self` is included in the matching domain of `other`,
    /// and no cell got larger.
    pub open spec fn narrows(self, other: BoardSet) -> bool {
        &&& self.size == other.size
        &&& self.cells@.len() == other.cells@.len()
        &&& forall|i: int|
            0 <= i < self.cells@.len() ==> (#[trigger] self.cells@[i]).dom().subset_of(
                other.cells@[i].dom(),
            ) && self.cells@[i].len <= other.cells@[i].len
    }

    /// No domain is empty.
    pub open spec fn all_nonempty(self) -> bool {
        forall|i: int| 0 <= i < self.cells@.len() ==> (#[trigger] self.cells@[i]).len >= 1
    }

    /// The height of the pinned cell `(x, y)` no longer appears anywhere else
    /// in its row or column.
    pub open spec fn settled(self, x: int, y: int) -> bool {
        &&& forall|i: int|
            0 <= i < self.size && i != x ==> !(#[trigger] self.dom_at(i, y)).contains(
                self.at(x, y).fixed_val(),
            )
        &&& forall|j: int|
            0 <= j < self.size && j != y ==> !(#[trigger] self.dom_at(x, j)).contains(
                self.at(x, y).fixed_val(),
            )
    }

    /// Every pinned cell is either still on the worklist or already settled.
    pub open spec fn clean(self, buf: Seq<(usize, usize)>) -> bool {
        forall|x: int, y: int|
            self.valid(x, y) && (#[trigger] self.at(x, y)).is_fixed() && !buf.contains(
                (x as usize, y as usize),
            ) ==> self.settled(x, y)
    }

    /// Every pinned cell is settled: running the propagator again would
    /// change nothing.
    pub open spec fn fixpoint(self) -> bool {
        forall|x: int, y: int|
            self.valid(x, y) && (#[trigger] self.at(x, y)).is_fixed() ==> self.settled(x, y)
    }

    /// The worklist holds valid coordinates of pinned cells.
    pub open spec fn buf_ok(self, buf: Seq<(usize, usize)>) -> bool {
        forall|k: int|
            0 <= k < buf.len() ==> {
                let e = #[trigger] buf[k];
                &&& e.0 < self.size
                &&& e.1 < self.size
                &&& self.at(e.0 as int, e.1 as int).is_fixed()
            }
    }
}

/// Flat indices of cells stay inside the store.
pub proof fn lemma_cell_index(size: int, x: int, y: int)
    requires
        1 <= size <= 255,
        0 <= x < size,
        0 <= y < size,
    ensures
        0 <= x + y * size < size * size,
        size * size <= 65025,
{
    assert(0 <= x + y * size < size * size && size * size <= 65025) by (nonlinear_arith)
        requires
            1 <= size <= 255,
            0 <= x < size,
            0 <= y < size,
    ;
}

impl BoardSet {
    /// Creates a store in which every cell still permits every height.
    pub fn new(size: usize) -> (r: BoardSet)
        requires
            1 <= size <= 255,
        ensures
            r.wf(),
            r.size == size,
            forall|i: int| 0 <= i < r.cells@.len() ==> (#[trigger] r.cells@[i]).len == size,
            forall|i: int|
                0 <= i < r.cells@.len() ==> (#[trigger] r.cells@[i]).dom() == range_set(
                    size as nat,
                ),
    {
        let mut vals: Vec<u8> = Vec::new();
        let mut v: usize = 1;
        while v <= size
            invariant
                1 <= v <= size + 1,
                size <= 255,
                vals@.len() == v - 1,
                forall|i: int| 0 <= i < vals@.len() ==> vals@[i] == i + 1,
            decreases size + 1 - v,
        {
            vals.push(v as u8);
            v = v + 1;
        }
        let template = BoardCell { len: size, vals };
        proof {
            assert(template.wf(size as nat));
            assert forall|h: u8| range_set(size as nat).contains(h) implies template.dom().contains(
                h,
            ) by {
                assert(template.vals@[h - 1] == h);
            }
            assert(template.dom() =~= range_set(size as nat));
            assert(size * size <= 65025) by (nonlinear_arith)
                requires
                    size <= 255,
            ;
        }
        let total = size * size;
        let mut cells: Vec<BoardCell> = Vec::new();
        let mut i: usize = 0;
        while i < total
            invariant
                0 <= i <= total,
                total == size * size,
                1 <= size <= 255,
                template.wf(size as nat),
                template.len == size,
                template.dom() == range_set(size as nat),
                cells@.len() == i,
                forall|k: int| 0 <= k < i ==> (#[trigger] cells@[k]).same(template),
            decreases total - i,
        {
            cells.push(template.clone());
            i = i + 1;
        }
        let r = BoardSet { size, cells };
        proof {
            assert forall|k: int| 0 <= k < r.cells@.len() implies (#[trigger] r.cells@[k]).wf(
                size as nat,
            ) && r.cells@[k].len == size && r.cells@[k].dom() == range_set(size as nat) by {
                assert(r.cells@[k].same(template));
                assert(r.cells@[k].dom() =~= template.dom());
            }
        }
        r
    }

    /// The domain cell at `(x, y)`.
    pub fn cell(&self, x: usize, y: usize) -> (r: &BoardCell)
        requires
            self.wf(),
            x < self.size,
            y < self.size,
        ensures
            *r == self.at(x as int, y as int),
    {
        proof {
            lemma_cell_index(self.size as int, x as int, y as int);
        }
        &self.cells[x + y * self.size]
    }

    /// Reads the store back as a board: pinned cells yield their height,
    /// undecided cells yield `0`.
    pub fn create_board(&self) -> (r: Vec<u8>)
        requires
            self.wf(),
        ensures
            r@.len() == self.cells@.len(),
            forall|i: int|
                0 <= i < r@.len() ==> r@[i] == (if self.cells@[i].is_fixed() {
                    self.cells@[i].fixed_val()
                } else {
                    0u8
                }),
    {
        let mut r: Vec<u8> = Vec::new();
        let n = self.cells.len();
        let mut i: usize = 0;
        while i < n
            invariant
                0 <= i <= n,
                n == self.cells@.len(),
                self.wf(),
                r@.len() == i,
                forall|k: int|
                    0 <= k < i ==> r@[k] == (if self.cells@[k].is_fixed() {
                        self.cells@[k].fixed_val()
                    } else {
                        0u8
                    }),
            decreases n - i,
        {
            let c = &self.cells[i];
            if c.count() == 1 {
                r.push(c.slice()[0]);
            } else {
                r.push(0);
            }
            i = i + 1;
        }
        r
    }
}

} // verus!

verus! {

/// Total number of permitted heights over all cells; strictly shrinks
/// whenever some `forbid` removes a height.
pub open spec fn sum_lens(cells: Seq<BoardCell>) -> nat
    decreases cells.len(),
{
    if cells.len() == 0 {
        0
    } else {
        sum_lens(cells.drop_last()) + cells.last().len as nat
    }
}

/// Updating one cell moves the total by the difference of the two lengths.
pub proof fn lemma_sum_update(s: Seq<BoardCell>, i: int, c: BoardCell)
    requires
        0 <= i < s.len(),
    ensures
        sum_lens(s.update(i, c)) == sum_lens(s) + c.len - s[i].len,
    decreases s.len(),
{
    let u = s.update(i, c);
    if i == s.len() - 1 {
        assert(u.drop_last() =~= s.drop_last());
    } else {
        assert(u.drop_last() =~= s.drop_last().update(i, c));
        lemma_sum_update(s.drop_last(), i, c);
    }
}

/// Distinct coordinates have distinct flat indices.
pub proof fn lemma_idx_injective(size: int, x1: int, y1: int, x2: int, y2: int)
    requires
        1 <= size,
        0 <= x1 < size,
        0 <= y1 < size,
        0 <= x2 < size,
        0 <= y2 < size,
        x1 + y1 * size == x2 + y2 * size,
    ensures
        x1 == x2 && y1 == y2,
{
    assert(x1 == x2 && y1 == y2) by (nonlinear_arith)
        requires
            1 <= size,
            0 <= x1 < size,
            0 <= y1 < size,
            0 <= x2 < size,
            0 <= y2 < size,
            x1 + y1 * size == x2 + y2 * size,
    ;
}

/// Cells that carry the same information permit the same heights.
pub broadcast proof fn lemma_same_dom(a: BoardCell, b: BoardCell)
    ensures
        #[trigger] a.same(b) ==> a.dom() == b.dom(),
{
    if a.same(b) {
        assert(a.dom() =~= b.dom());
    }
}

/// A pinned cell permits exactly its pinned height.
pub proof fn lemma_fixed_dom(c: BoardCell)
    requires
        c.inv(),
        c.is_fixed(),
    ensures
        c.dom() == set![c.fixed_val()],
{
    assert forall|v: u8| c.dom().contains(v) implies v == c.fixed_val() by {
        let i = choose|i: int| 0 <= i < c.len && c.vals@[i] == v;
        assert(i == 0);
    }
    assert(c.dom().contains(c.vals@[0]));
    assert(c.dom() =~= set![c.fixed_val()]);
}

impl BoardSet {
    /// Withdraws `value` from every other cell of row `y` and of column `x`.
    ///
    /// Newly pinned cells are pushed onto `now_fixed`; the pass fails as soon
    /// as it would empty a domain.  When the height was already absent from
    /// the rest of the row and column, the store and the worklist do not
    /// change.
    #[verifier::loop_isolation(false)]
    fn remove_duplicates(
        &mut self,
        x: usize,
        y: usize,
        value: u8,
        now_fixed: &mut Vec<(usize, usize)>,
    ) -> (r: Result<(), NoSolution>)
        requires
            old(self).wf(),
            old(self).valid(x as int, y as int),
        ensures
            final(self).wf(),
            final(self).size == old(self).size,
            final(self).narrows(*old(self)),
            old(now_fixed)@.is_prefix_of(final(now_fixed)@),
            forall|k: int|
                old(now_fixed)@.len() <= k < final(now_fixed)@.len() ==> {
                    let e = #[trigger] final(now_fixed)@[k];
                    &&& e.0 < final(self).size
                    &&& e.1 < final(self).size
                    &&& final(self).at(e.0 as int, e.1 as int).is_fixed()
                    &&& !old(self).at(e.0 as int, e.1 as int).is_fixed()
                },
            forall|i: int, j: int|
                final(self).valid(i, j) && !(i == x && j == y) && (i == x || j == y)
                    ==> !(#[trigger] final(self).at(i, j)).same(old(self).at(i, j))
                    ==> old(self).at(i, j).dom().contains(value),
            forall|i: int, j: int|
                final(self).valid(i, j) && !(i != x && j != y) && !(i == x && j == y) ==> (
                #[trigger] final(self).at(i, j)).dom() == old(self).at(i, j).dom().remove(value)
                    || final(self).at(i, j).same(old(self).at(i, j)),
            forall|i: int, j: int|
                final(self).valid(i, j) && (i == x && j == y || i != x && j != y) ==> (
                #[trigger] final(self).at(i, j)).same(old(self).at(i, j)),
            r.is_ok() ==> forall|i: int, j: int|
                final(self).valid(i, j) && !(i == x && j == y) && (i == x || j == y) ==> (
                #[trigger] final(self).at(i, j)).dom() == old(self).at(i, j).dom().remove(value),
            r.is_ok() ==> forall|i: int, j: int|
                #![trigger final(self).at(i, j)]
                final(self).valid(i, j) && old(self).at(i, j).len >= 1
                    ==> final(self).at(i, j).len >= 1,
            forall|i: int, j: int|
                #![trigger final(self).at(i, j)]
                final(self).valid(i, j) && final(self).at(i, j).is_fixed()
                    && !old(self).at(i, j).is_fixed()
                    ==> final(now_fixed)@.contains((i as usize, j as usize)),
            sum_lens(final(self).cells@) <= sum_lens(old(self).cells@),
            final(self).same_set(*old(self)) && final(now_fixed)@ == old(now_fixed)@ || sum_lens(
                final(self).cells@,
            ) < sum_lens(old(self).cells@),
            r.is_err() ==> sum_lens(final(self).cells@) < sum_lens(old(self).cells@),
            r.is_err() ==> some_neighbor_pinned_to(*old(self), x as int, y as int, value),
    {
        broadcast use lemma_same_dom;

        let ghost pre = *old(self);
        let ghost buf0 = old(now_fixed)@;
        let size = self.size;

        let mut col: usize = 0;
        while col < size
            invariant
                self.wf(),
                self.size == size,
                pre.wf(),
                pre.size == size,
                pre.valid(x as int, y as int),
                0 <= col <= size,
                buf0.is_prefix_of(now_fixed@),
                forall|k: int|
                    buf0.len() <= k < now_fixed@.len() ==> {
                        let e = #[trigger] now_fixed@[k];
                        &&& e.0 < size
                        &&& e.1 < size
                        &&& self.at(e.0 as int, e.1 as int).is_fixed()
                        &&& !pre.at(e.0 as int, e.1 as int).is_fixed()
                    },
                forall|i: int, j: int|
                    self.valid(i, j) && (j != y || i == x || i >= col) ==> (#[trigger] self.at(
                        i,
                        j,
                    )).same(pre.at(i, j)),
                forall|i: int|
                    0 <= i < col && i != x ==> (#[trigger] self.at(i, y as int)).dom() == pre.at(
                        i,
                        y as int,
                    ).dom().remove(value),
                forall|i: int|
                    0 <= i < col && i != x ==> (!pre.at(i, y as int).dom().contains(value) ==> (
                    #[trigger] self.at(i, y as int)).same(pre.at(i, y as int))),
                forall|i: int|
                    0 <= i < col && i != x && pre.at(i, y as int).len >= 1 ==> (#[trigger] self.at(
                        i,
                        y as int,
                    )).len >= 1,
                forall|i: int|
                    0 <= i < col && i != x && (#[trigger] self.at(i, y as int)).is_fixed()
                        && !pre.at(i, y as int).is_fixed() ==> now_fixed@.contains(
                        (i as usize, y),
                    ),
                self.narrows(pre),
                sum_lens(self.cells@) <= sum_lens(pre.cells@),
                self.same_set(pre) && now_fixed@ == buf0 || sum_lens(self.cells@) < sum_lens(
                    pre.cells@,
                ),
            decreases size - col,
        {
            if col != x {
                proof {
                    lemma_cell_index(size as int, col as int, y as int);
                }
                let idx = col + y * size;
                let ghost mid = *self;
                let c = &mut self.cells[idx];
                let removed = c.forbid(value);
                proof {
                    assert(self.cells@ =~= mid.cells@.update(idx as int, self.cells@[idx as int]));
                    lemma_sum_update(mid.cells@, idx as int, self.cells@[idx as int]);
                    lemma_same_dom(mid.at(col as int, y as int), pre.at(col as int, y as int));
                    assert forall|i: int, j: int|
                        self.valid(i, j) && (i != col || j != y) implies (#[trigger] self.at(
                        i,
                        j,
                    )) == mid.at(i, j) by {
                        lemma_cell_index(size as int, i, j);
                        if i + j * size == idx {
                            lemma_idx_injective(size as int, i, j, col as int, y as int);
                        }
                    }
                }
                if removed {
                    let cnt = self.cells[idx].count();
                    if cnt == 0 {
                        proof {
                            lemma_fixed_dom(mid.at(col as int, y as int));
                            assert(mid.at(col as int, y as int).dom() == set![value]);
                            assert(pre.at(col as int, y as int).dom() == set![value]);
                        }
                        return Err(NoSolution);
                    }
                    if cnt == 1 {
                        let ghost bufbefore = now_fixed@;
                        now_fixed.push((col, y));
                        proof {
                            assert(now_fixed@[now_fixed@.len() - 1] == (col, y));
                            assert forall|t: (usize, usize)|
                                bufbefore.contains(t) implies now_fixed@.contains(t) by {
                                let k = choose|k: int|
                                    0 <= k < bufbefore.len() && bufbefore[k] == t;
                                assert(now_fixed@[k] == t);
                            }
                            assert(buf0.is_prefix_of(now_fixed@));
                        }
                    }
                }
            }
            col = col + 1;
        }

        let mut row: usize = 0;
        while row < size
            invariant
                self.wf(),
                self.size == size,
                pre.wf(),
                pre.size == size,
                pre.valid(x as int, y as int),
                0 <= row <= size,
                buf0.is_prefix_of(now_fixed@),
                forall|k: int|
                    buf0.len() <= k < now_fixed@.len() ==> {
                        let e = #[trigger] now_fixed@[k];
                        &&& e.0 < size
                        &&& e.1 < size
                        &&& self.at(e.0 as int, e.1 as int).is_fixed()
                        &&& !pre.at(e.0 as int, e.1 as int).is_fixed()
                    },
                forall|i: int, j: int|
                    self.valid(i, j) && j != y && (i != x || j >= row) ==> (#[trigger] self.at(
                        i,
                        j,
                    )).same(pre.at(i, j)),
                forall|i: int|
                    0 <= i < size && i != x ==> (#[trigger] self.at(i, y as int)).dom() == pre.at(
                        i,
                        y as int,
                    ).dom().remove(value),
                forall|i: int|
                    0 <= i < size && i != x ==> (!pre.at(i, y as int).dom().contains(value) ==> (
                    #[trigger] self.at(i, y as int)).same(pre.at(i, y as int))),
                forall|i: int|
                    0 <= i < size && i != x && pre.at(i, y as int).len >= 1 ==> (#[trigger] self.at(
                        i,
                        y as int,
                    )).len >= 1,
                forall|i: int|
                    0 <= i < size && i != x && (#[trigger] self.at(i, y as int)).is_fixed()
                        && !pre.at(i, y as int).is_fixed() ==> now_fixed@.contains(
                        (i as usize, y),
                    ),
                self.at(x as int, y as int).same(pre.at(x as int, y as int)),
                forall|j: int|
                    0 <= j < row && j != y ==> (#[trigger] self.at(x as int, j)).dom() == pre.at(
                        x as int,
                        j,
                    ).dom().remove(value),
                forall|j: int|
                    0 <= j < row && j != y ==> (!pre.at(x as int, j).dom().contains(value) ==> (
                    #[trigger] self.at(x as int, j)).same(pre.at(x as int, j))),
                forall|j: int|
                    0 <= j < row && j != y && pre.at(x as int, j).len >= 1 ==> (#[trigger] self.at(
                        x as int,
                        j,
                    )).len >= 1,
                forall|j: int|
                    0 <= j < row && j != y && (#[trigger] self.at(x as int, j)).is_fixed()
                        && !pre.at(x as int, j).is_fixed() ==> now_fixed@.contains(
                        (x, j as usize),
                    ),
                self.narrows(pre),
                sum_lens(self.cells@) <= sum_lens(pre.cells@),
                self.same_set(pre) && now_fixed@ == buf0 || sum_lens(self.cells@) < sum_lens(
                    pre.cells@,
                ),
            decreases size - row,
        {
            if row != y {
                proof {
                    lemma_cell_index(size as int, x as int, row as int);
                }
                let idx = x + row * size;
                let ghost mid = *self;
                let c = &mut self.cells[idx];
                let removed = c.forbid(value);
                proof {
                    assert(self.cells@ =~= mid.cells@.update(idx as int, self.cells@[idx as int]));
                    lemma_sum_update(mid.cells@, idx as int, self.cells@[idx as int]);
                    lemma_same_dom(mid.at(x as int, row as int), pre.at(x as int, row as int));
                    assert forall|i: int, j: int|
                        self.valid(i, j) && (i != x || j != row) implies (#[trigger] self.at(
                        i,
                        j,
                    )) == mid.at(i, j) by {
                        lemma_cell_index(size as int, i, j);
                        if i + j * size == idx {
                            lemma_idx_injective(size as int, i, j, x as int, row as int);
                        }
                    }
                }
                if removed {
                    let cnt = self.cells[idx].count();
                    if cnt == 0 {
                        proof {
                            lemma_fixed_dom(mid.at(x as int, row as int));
                            assert(mid.at(x as int, row as int).dom() == set![value]);
                            assert(pre.at(x as int, row as int).dom() == set![value]);
                        }
                        return Err(NoSolution);
                    }
                    if cnt == 1 {
                        let ghost bufbefore = now_fixed@;
                        now_fixed.push((x, row));
                        proof {
                            assert(now_fixed@[now_fixed@.len() - 1] == (x, row));
                            assert forall|t: (usize, usize)|
                                bufbefore.contains(t) implies now_fixed@.contains(t) by {
                                let k = choose|k: int|
                                    0 <= k < bufbefore.len() && bufbefore[k] == t;
                                assert(now_fixed@[k] == t);
                            }
                            assert(buf0.is_prefix_of(now_fixed@));
                        }
                    }
                }
            }
            row = row + 1;
        }

        Ok(())
    }
}

} // verus!

verus! {

/// Stores that carry the same information have the same total of permitted
/// heights.
pub proof fn lemma_sum_same(a: Seq<BoardCell>, b: Seq<BoardCell>)
    requires
        a.len() == b.len(),
        forall|i: int| 0 <= i < a.len() ==> (#[trigger] a[i]).same(b[i]),
    ensures
        sum_lens(a) == sum_lens(b),
    decreases a.len(),
{
    if a.len() > 0 {
        lemma_sum_same(a.drop_last(), b.drop_last());
    }
}

/// Every flat index decomposes into valid cell coordinates.
pub proof fn lemma_flat_coords(size: int, k: int)
    requires
        1 <= size,
        0 <= k < size * size,
    ensures
        0 <= k % size < size,
        0 <= k / size < size,
        k == (k % size) + (k / size) * size,
{
    assert(0 <= k % size < size && 0 <= k / size < size && k == (k % size) + (k / size) * size)
        by (nonlinear_arith)
        requires
            1 <= size,
            0 <= k < size * size,
    ;
}

/// A settled cell stays settled when domains only shrink and the cell itself
/// keeps at least one height.
pub proof fn lemma_settled_preserved(post: BoardSet, pre: BoardSet, x: int, y: int)
    requires
        pre.wf(),
        post.wf(),
        post.narrows(pre),
        pre.valid(x, y),
        pre.at(x, y).is_fixed(),
        pre.settled(x, y),
        post.at(x, y).len >= 1,
    ensures
        post.at(x, y).is_fixed(),
        post.at(x, y).fixed_val() == pre.at(x, y).fixed_val(),
        post.settled(x, y),
{
    lemma_cell_index(pre.size as int, x, y);
    let c1 = pre.at(x, y);
    let c2 = post.at(x, y);
    lemma_fixed_dom(c1);
    assert(c2.dom().contains(c2.vals@[0]));
    assert(c2.fixed_val() == c1.fixed_val());
    assert forall|i: int|
        0 <= i < post.size && i != x implies !(#[trigger] post.dom_at(i, y)).contains(
        c2.fixed_val(),
    ) by {
        lemma_cell_index(pre.size as int, i, y);
        assert(!pre.dom_at(i, y).contains(c1.fixed_val()));
    }
    assert forall|j: int|
        0 <= j < post.size && j != y implies !(#[trigger] post.dom_at(x, j)).contains(
        c2.fixed_val(),
    ) by {
        lemma_cell_index(pre.size as int, x, j);
        assert(!pre.dom_at(x, j).contains(c1.fixed_val()));
    }
}

impl BoardSet {
    /// Assumes that cell `(x, y)` is pinned and withdraws its height from
    /// every other cell of the same row and column.
    ///
    /// Cells thereby pinned are pushed onto `now_fixed`; the pass fails iff
    /// it empties a domain.  A pass around an already settled cell changes
    /// nothing: propagation is idempotent.
    #[verifier::loop_isolation(false)]
    pub fn remove_duplicates_around(
        &mut self,
        x: usize,
        y: usize,
        now_fixed: &mut Vec<(usize, usize)>,
    ) -> (r: Result<(), NoSolution>)
        requires
            old(self).wf(),
            old(self).valid(x as int, y as int),
            old(self).at(x as int, y as int).is_fixed(),
        ensures
            final(self).wf(),
            final(self).size == old(self).size,
            final(self).narrows(*old(self)),
            old(now_fixed)@.is_prefix_of(final(now_fixed)@),
            forall|k: int|
                old(now_fixed)@.len() <= k < final(now_fixed)@.len() ==> {
                    let e = #[trigger] final(now_fixed)@[k];
                    &&& e.0 < final(self).size
                    &&& e.1 < final(self).size
                    &&& final(self).at(e.0 as int, e.1 as int).is_fixed()
                    &&& !old(self).at(e.0 as int, e.1 as int).is_fixed()
                },
            forall|i: int, j: int|
                #![trigger final(self).at(i, j)]
                final(self).valid(i, j) && final(self).at(i, j).is_fixed()
                    && !old(self).at(i, j).is_fixed()
                    ==> final(now_fixed)@.contains((i as usize, j as usize)),
            final(self).at(x as int, y as int).same(old(self).at(x as int, y as int)),
            r.is_ok() ==> final(self).settled(x as int, y as int),
            r.is_ok() ==> forall|i: int, j: int|
                #![trigger final(self).at(i, j)]
                final(self).valid(i, j) && old(self).at(i, j).len >= 1
                    ==> final(self).at(i, j).len >= 1,
            old(self).settled(x as int, y as int) ==> final(self).same_set(*old(self))
                && final(now_fixed)@ == old(now_fixed)@ && r.is_ok(),
            sum_lens(final(self).cells@) <= sum_lens(old(self).cells@),
            final(self).same_set(*old(self)) && final(now_fixed)@ == old(now_fixed)@ || sum_lens(
                final(self).cells@,
            ) < sum_lens(old(self).cells@),
            r.is_err() ==> some_neighbor_pinned_to(
                *old(self),
                x as int,
                y as int,
                old(self).at(x as int, y as int).fixed_val(),
            ),
            r.is_ok() ==> forall|i: int|
                #![trigger final(self).at(i, y as int)]
                0 <= i < final(self).size && i != x
                    ==> final(self).at(i, y as int).dom()
                    == old(self).at(i, y as int).dom().remove(
                    old(self).at(x as int, y as int).fixed_val(),
                ),
            r.is_ok() ==> forall|j: int|
                #![trigger final(self).at(x as int, j)]
                0 <= j < final(self).size && j != y
                    ==> final(self).at(x as int, j).dom()
                    == old(self).at(x as int, j).dom().remove(
                    old(self).at(x as int, y as int).fixed_val(),
                ),
            forall|i: int, j: int|
                #![trigger final(self).at(i, j)]
                final(self).valid(i, j) && (i == x && j == y || i != x && j != y)
                    ==> final(self).at(i, j).same(old(self).at(i, j)),
    {
        broadcast use lemma_same_dom;

        let ghost pre = *old(self);
        let ghost size = self.size as int;
        proof {
            lemma_cell_index(size, x as int, y as int);
            lemma_fixed_dom(pre.at(x as int, y as int));
        }
        let value = self.cell(x, y).slice()[0];
        let r = self.remove_duplicates(x, y, value, now_fixed);
        proof {
            let post = *self;
            assert(post.at(x as int, y as int).fixed_val() == value);
            if r.is_ok() {
                assert forall|i: int|
                    0 <= i < size && i != x implies !(#[trigger] post.dom_at(
                    i,
                    y as int,
                )).contains(value) by {
                    lemma_cell_index(size, i, y as int);
                }
                assert forall|j: int|
                    0 <= j < size && j != y implies !(#[trigger] post.dom_at(
                    x as int,
                    j,
                )).contains(value) by {
                    lemma_cell_index(size, x as int, j);
                }
            }
            if pre.settled(x as int, y as int) {
                assert(pre.at(x as int, y as int).fixed_val() == value);
                assert forall|k: int|
                    0 <= k < post.cells@.len() implies (#[trigger] post.cells@[k]).same(
                    pre.cells@[k],
                ) by {
                    lemma_flat_coords(size, k);
                    let i = k % size;
                    let j = k / size;
                    assert(post.at(i, j) == post.cells@[k]);
                    assert(pre.at(i, j) == pre.cells@[k]);
                    if i == x && j == y {
                    } else if j == y {
                        assert(!pre.dom_at(i, j).contains(value));
                    } else if i == x {
                        assert(!pre.dom_at(i, j).contains(value));
                    }
                }
                assert(post.same_set(pre));
                lemma_sum_same(post.cells@, pre.cells@);
            }
        }
        r
    }

    /// Pins cell `(x, y)` to the `subindex`-th of its currently permitted
    /// heights, then withdraws that height from the rest of its row and
    /// column as [`Self::remove_duplicates_around`] does.
    #[verifier::loop_isolation(false)]
    pub fn set_and_remove_duplicates(
        &mut self,
        x: usize,
        y: usize,
        subindex: usize,
        now_fixed: &mut Vec<(usize, usize)>,
    ) -> (r: Result<(), NoSolution>)
        requires
            old(self).wf(),
            old(self).valid(x as int, y as int),
            subindex < old(self).at(x as int, y as int).len,
        ensures
            final(self).wf(),
            final(self).size == old(self).size,
            final(self).narrows(*old(self)),
            old(now_fixed)@.is_prefix_of(final(now_fixed)@),
            forall|k: int|
                old(now_fixed)@.len() <= k < final(now_fixed)@.len() ==> {
                    let e = #[trigger] final(now_fixed)@[k];
                    &&& e.0 < final(self).size
                    &&& e.1 < final(self).size
                    &&& final(self).at(e.0 as int, e.1 as int).is_fixed()
                },
            forall|i: int, j: int|
                #![trigger final(self).at(i, j)]
                final(self).valid(i, j) && !(i == x && j == y) && final(self).at(i, j).is_fixed()
                    && !old(self).at(i, j).is_fixed()
                    ==> final(now_fixed)@.contains((i as usize, j as usize)),
            final(self).at(x as int, y as int).is_fixed(),
            final(self).at(x as int, y as int).fixed_val() == old(self).at(
                x as int,
                y as int,
            ).vals@[subindex as int],
            r.is_ok() ==> final(self).settled(x as int, y as int),
            r.is_ok() ==> forall|i: int, j: int|
                #![trigger final(self).at(i, j)]
                final(self).valid(i, j) && old(self).at(i, j).len >= 1
                    ==> final(self).at(i, j).len >= 1,
            r.is_err() ==> some_neighbor_pinned_to(
                *old(self),
                x as int,
                y as int,
                old(self).at(x as int, y as int).vals@[subindex as int],
            ),
            forall|b: Seq<u8>|
                (#[trigger] old(self).candidate(b)) && b[x + y * old(self).size] == old(self).at(
                    x as int,
                    y as int,
                ).vals@[subindex as int] ==> r.is_ok() && final(self).covers(b),
    {
        broadcast use lemma_same_dom;

        let ghost pre = *old(self);
        let ghost size = self.size as int;
        proof {
            lemma_cell_index(size, x as int, y as int);
        }
        let idx = x + y * self.size;
        let value = self.cells[idx].vals[subindex];
        let ghost mid0 = *self;
        let c = &mut self.cells[idx];
        let set_result = c.set(value);
        proof {
            assert(self.cells@ =~= mid0.cells@.update(idx as int, self.cells@[idx as int]));
            assert(set_result.is_ok());
            assert forall|i: int, j: int|
                self.valid(i, j) && (i != x || j != y) implies (#[trigger] self.at(i, j))
                == mid0.at(i, j) by {
                lemma_cell_index(size, i, j);
                if i + j * size == idx {
                    lemma_idx_injective(size, i, j, x as int, y as int);
                }
            }
        }
        let ghost mid1 = *self;
        let r = self.remove_duplicates(x, y, value, now_fixed);
        proof {
            let post = *self;
            if r.is_ok() {
                assert forall|i: int|
                    0 <= i < size && i != x implies !(#[trigger] post.dom_at(
                    i,
                    y as int,
                )).contains(value) by {
                    lemma_cell_index(size, i, y as int);
                }
                assert forall|j: int|
                    0 <= j < size && j != y implies !(#[trigger] post.dom_at(
                    x as int,
                    j,
                )).contains(value) by {
                    lemma_cell_index(size, x as int, j);
                }
            }
            if r.is_err() {
                // The emptied neighbor existed before the cell was pinned.
                let (i, j) = choose|i: int, j: int|
                    mid1.valid(i, j) && (i == x as int || j == y as int) && !(i == x as int && j
                        == y as int) && (#[trigger] mid1.at(i, j)).dom() == set![value];
                assert(pre.at(i, j).dom() == set![value]);
                assert(some_neighbor_pinned_to(pre, x as int, y as int, value));
            }
            // A duplicate-free board that keeps this height survives the pass.
            assert forall|b: Seq<u8>|
                pre.candidate(b) && b[x + y * pre.size] == value implies r.is_ok()
                && post.covers(b) by {
                let ci = x as int + (y as int) * size;
                assert(b[ci] == value);
                if r.is_err() {
                    let (i, j) = choose|i: int, j: int|
                        pre.valid(i, j) && (i == x as int || j == y as int) && !(i == x as int && j
                            == y as int) && (#[trigger] pre.at(i, j)).dom() == set![value];
                    lemma_cell_index(size, i, j);
                    assert(pre.cells@[i + j * size].dom().contains(b[i + j * size]));
                    assert(b[i + j * size] == value);
                    if j == y as int {
                        assert(b[i + (y as int) * size] == value);
                        assert(b[x as int + (y as int) * size] == value);
                        assert(false);
                    } else {
                        assert(b[(x as int) + j * size] == value);
                        assert(b[(x as int) + (y as int) * size] == value);
                        assert(false);
                    }
                } else {
                    assert forall|k: int|
                        0 <= k < post.cells@.len() implies (#[trigger] post.cells@[k]).dom().contains(
                        b[k],
                    ) by {
                        lemma_flat_coords(size, k);
                        let i2 = k % size;
                        let j2 = k / size;
                        assert(post.at(i2, j2) == post.cells@[k]);
                        assert(pre.at(i2, j2) == pre.cells@[k]);
                        assert(pre.cells@[k].dom().contains(b[k]));
                        if i2 == x as int && j2 == y as int {
                            assert(post.at(i2, j2).dom() == set![value]);
                        } else if j2 == y as int {
                            assert(post.at(i2, j2).dom() == mid1.at(i2, j2).dom().remove(value));
                            assert(mid1.at(i2, j2) == pre.at(i2, j2));
                            if b[k] == value {
                                assert(b[i2 + j2 * size] == value);
                                assert(b[x as int + (y as int) * size] == value);
                                assert(false);
                            }
                        } else if i2 == x as int {
                            assert(post.at(i2, j2).dom() == mid1.at(i2, j2).dom().remove(value));
                            assert(mid1.at(i2, j2) == pre.at(i2, j2));
                            if b[k] == value {
                                assert(b[i2 + j2 * size] == value);
                                assert(b[x as int + (y as int) * size] == value);
                                assert(false);
                            }
                        } else {
                            assert(post.at(i2, j2).same(mid1.at(i2, j2)));
                            assert(mid1.at(i2, j2) == pre.at(i2, j2));
                        }
                    }
                }
            }
        }
        r
    }

    /// Runs the propagator to fixpoint: repeatedly pops a pinned cell from
    /// the worklist and withdraws its height from the rest of its row and
    /// column, until the worklist is empty or a domain empties.
    ///
    /// On success the store is a propagation fixpoint, so running this again
    /// with the (now empty) worklist changes nothing.
    #[verifier::loop_isolation(false)]
    pub fn remove_duplicates_in(&mut self, buf: &mut Vec<(usize, usize)>) -> (r: Result<
        (),
        NoSolution,
    >)
        requires
            old(self).wf(),
            old(self).buf_ok(old(buf)@),
            old(self).clean(old(buf)@),
            old(self).all_nonempty(),
        ensures
            final(self).wf(),
            final(self).size == old(self).size,
            final(self).narrows(*old(self)),
            r.is_ok() ==> final(buf)@.len() == 0 && final(self).fixpoint()
                && final(self).all_nonempty(),
            old(self).fixpoint() && old(buf)@.len() == 0 ==> final(self).same_set(*old(self))
                && r.is_ok(),
            forall|b: Seq<u8>|
                #[trigger] old(self).candidate(b) ==> r.is_ok() && final(self).covers(b),
            r.is_ok() ==> forall|t: BoardSet|
                #[trigger] clean_substore(t, *old(self)) ==> dom_subset(t, *final(self)),
    {
        broadcast use lemma_same_dom;

        let ghost pre = *old(self);
        let ghost buf0 = old(buf)@;
        let ghost size = self.size as int;
        while buf.len() != 0
            invariant
                self.wf(),
                self.size == pre.size,
                self.narrows(pre),
                self.buf_ok(buf@),
                self.clean(buf@),
                self.all_nonempty(),
                pre.fixpoint() && buf0.len() == 0 ==> self.same_set(pre) && buf@.len() == 0,
                forall|b: Seq<u8>| #[trigger] pre.candidate(b) ==> self.covers(b),
                forall|t: BoardSet| #[trigger] clean_substore(t, pre) ==> dom_subset(t, *self),
            decreases sum_lens(self.cells@), buf@.len(),
        {
            let ghost buf_head = buf@;
            let next = buf.pop();
            match next {
                None => (),
                Some((x, y)) => {
                    let ghost mid = *self;
                    let ghost buf1 = buf@;
                    proof {
                        assert(buf_head =~= buf1.push((x, y)));
                    }
                    let r = self.remove_duplicates_around(x, y, buf);
                    if r.is_err() {
                        proof {
                            // the pass emptied a pinned neighbor: no
                            // duplicate-free board was still covered
                            lemma_cell_index(size, x as int, y as int);
                            let ci = x as int + (y as int) * size;
                            let v = mid.at(x as int, y as int).fixed_val();
                            assert forall|b: Seq<u8>| pre.candidate(b) implies false by {
                                assert(mid.covers(b));
                                lemma_fixed_dom(mid.at(x as int, y as int));
                                assert(mid.cells@[ci].dom().contains(b[ci]));
                                assert(b[ci] == v);
                                assert(b[x as int + (y as int) * size] == v);
                                let (i, j) = choose|i: int, j: int|
                                    mid.valid(i, j) && (i == x as int || j == y as int) && !(i == x
                                        as int && j == y as int) && (#[trigger] mid.at(i, j)).dom()
                                        == set![v];
                                lemma_cell_index(size, i, j);
                                assert(mid.cells@[i + j * size].dom().contains(b[i + j * size]));
                                assert(b[i + j * size] == v);
                                if j == y as int {
                                    assert(b[i + (y as int) * size] == v);
                                    assert(false);
                                } else {
                                    assert(b[(x as int) + j * size] == v);
                                    assert(false);
                                }
                            }
                        }
                        return Err(NoSolution);
                    }
                    proof {
                        let post = *self;
                        // The popped entry is settled now; other pinned cells
                        // are either still queued or stay settled.
                        assert forall|i: int, j: int|
                            post.valid(i, j) && (#[trigger] post.at(i, j)).is_fixed()
                                && !buf@.contains((i as usize, j as usize)) implies post.settled(
                            i,
                            j,
                        ) by {
                            lemma_cell_index(size, i, j);
                            let e = (i as usize, j as usize);
                            if i == x as int && j == y as int {
                            } else {
                                if !mid.at(i, j).is_fixed() {
                                    assert(buf@.contains(e));
                                } else {
                                    // The cell was pinned before this pass and
                                    // is not queued, so it was not queued
                                    // before the pass either.
                                    if buf1.contains(e) {
                                        let k = choose|k: int|
                                            0 <= k < buf1.len() && buf1[k] == e;
                                        assert(buf@[k] == e);
                                        assert(false);
                                    }
                                    if buf_head.contains(e) {
                                        let k = choose|k: int|
                                            0 <= k < buf_head.len() && buf_head[k] == e;
                                        assert(k == buf1.len());
                                        assert(false);
                                    }
                                    assert(mid.settled(i, j));
                                    lemma_settled_preserved(post, mid, i, j);
                                }
                            }
                        }
                        // No domain emptied on this pass.
                        assert forall|k: int|
                            0 <= k < post.cells@.len() implies (#[trigger] post.cells@[k]).len
                            >= 1 by {
                            lemma_flat_coords(size, k);
                            let i = k % size;
                            let j = k / size;
                            assert(mid.cells@[k].len >= 1);
                            assert(mid.at(i, j) == mid.cells@[k]);
                            assert(post.at(i, j).len >= 1);
                        }
                        // Covered duplicate-free boards stay covered.
                        lemma_cell_index(size, x as int, y as int);
                        let ci = x as int + (y as int) * size;
                        let v = mid.at(x as int, y as int).fixed_val();
                        lemma_fixed_dom(mid.at(x as int, y as int));
                        assert forall|b: Seq<u8>| pre.candidate(b) implies post.covers(b) by {
                            assert(mid.covers(b));
                            assert(mid.cells@[ci].dom().contains(b[ci]));
                            assert(b[ci] == v);
                            assert(b[x as int + (y as int) * size] == v);
                            assert forall|k: int|
                                0 <= k < post.cells@.len() implies (
                            #[trigger] post.cells@[k]).dom().contains(b[k]) by {
                                lemma_flat_coords(size, k);
                                let i2 = k % size;
                                let j2 = k / size;
                                assert(post.at(i2, j2) == post.cells@[k]);
                                assert(mid.at(i2, j2) == mid.cells@[k]);
                                assert(mid.cells@[k].dom().contains(b[k]));
                                if i2 == x as int && j2 == y as int {
                                    assert(post.at(i2, j2).same(mid.at(i2, j2)));
                                } else if j2 == y as int {
                                    assert(post.at(i2, j2).dom() == mid.at(i2, j2).dom().remove(
                                        v,
                                    ));
                                    if b[k] == v {
                                        assert(b[i2 + j2 * size] == v);
                                        assert(false);
                                    }
                                } else if i2 == x as int {
                                    assert(post.at(i2, j2).dom() == mid.at(i2, j2).dom().remove(
                                        v,
                                    ));
                                    if b[k] == v {
                                        assert(b[i2 + j2 * size] == v);
                                        assert(false);
                                    }
                                } else {
                                    assert(post.at(i2, j2).same(mid.at(i2, j2)));
                                }
                            }
                        }
                        // Clean substores survive the pass: they already
                        // lack the withdrawn height around the pinned cell.
                        assert forall|t: BoardSet| clean_substore(t, pre) implies dom_subset(
                            t,
                            post,
                        ) by {
                            assert(dom_subset(t, mid));
                            assert(t.cells@[ci].dom().subset_of(mid.cells@[ci].dom()));
                            assert(t.cells@[ci].wf(t.size as nat));
                            assert(t.cells@[ci].len >= 1);
                            lemma_subset_singleton(t.cells@[ci], v);
                            assert(t.at(x as int, y as int) == t.cells@[ci]);
                            assert(t.settled(x as int, y as int));
                            assert forall|k: int|
                                0 <= k < t.cells@.len() implies (
                            #[trigger] t.cells@[k]).dom().subset_of(post.cells@[k].dom()) by {
                                lemma_flat_coords(size, k);
                                let i2 = k % size;
                                let j2 = k / size;
                                assert(post.at(i2, j2) == post.cells@[k]);
                                assert(mid.at(i2, j2) == mid.cells@[k]);
                                assert(t.at(i2, j2) == t.cells@[k]);
                                if i2 == x as int && j2 == y as int {
                                    assert(post.at(i2, j2).same(mid.at(i2, j2)));
                                } else if j2 == y as int {
                                    assert(post.at(i2, j2).dom() == mid.at(i2, j2).dom().remove(
                                        v,
                                    ));
                                    assert(!t.dom_at(i2, j2).contains(v));
                                    assert forall|u: u8|
                                        t.cells@[k].dom().contains(u) implies post.cells@[
                                    k].dom().contains(u) by {
                                        assert(u != v);
                                        assert(mid.cells@[k].dom().contains(u));
                                    }
                                } else if i2 == x as int {
                                    assert(post.at(i2, j2).dom() == mid.at(i2, j2).dom().remove(
                                        v,
                                    ));
                                    assert(!t.dom_at(i2, j2).contains(v));
                                    assert forall|u: u8|
                                        t.cells@[k].dom().contains(u) implies post.cells@[
                                    k].dom().contains(u) by {
                                        assert(u != v);
                                        assert(mid.cells@[k].dom().contains(u));
                                    }
                                } else {
                                    assert(post.at(i2, j2).same(mid.at(i2, j2)));
                                }
                            }
                        }
                        // The worklist still holds pinned cells only.
                        assert forall|k: int|
                            0 <= k < buf@.len() implies {
                            let e = #[trigger] buf@[k];
                            &&& e.0 < self.size
                            &&& e.1 < self.size
                            &&& self.at(e.0 as int, e.1 as int).is_fixed()
                        } by {
                            let e = buf@[k];
                            if k < buf1.len() {
                                assert(buf1[k] == e);
                                assert(buf_head[k] == e);
                                lemma_cell_index(size, e.0 as int, e.1 as int);
                                assert(mid.at(e.0 as int, e.1 as int).is_fixed());
                                assert(post.at(e.0 as int, e.1 as int).len >= 1);
                                assert(post.at(e.0 as int, e.1 as int).len <= mid.at(
                                    e.0 as int,
                                    e.1 as int,
                                ).len);
                            }
                        }
                    }
                },
            }
        }
        Ok(())
    }
}

} // verus!

verus! {

/// Which heights position `i` (0-based, counted from the viewing edge) of a
/// line may take once the clue `c` of that edge is taken into account, on a
/// board of size `n`:
///
/// - clue 1: the nearest cell is the tallest height `n`, every later cell is
///   not;
/// - clue `n`: the line ascends `1, 2, ..., n` from the edge;
/// - otherwise a height of `n - c + 2 + i` or more at position `i` would hide
///   too many cells to reach `c` visible ones.
pub open spec fn clue_allows(c: u8, i: int, n: nat, v: u8) -> bool {
    if c == 1 {
        if i == 0 {
            v == n
        } else {
            v != n
        }
    } else if c == n {
        v == i + 1
    } else {
        (v as int) < n - c + 2 + i
    }
}

/// The set of heights that clue `c` keeps available at position `i`.
pub open spec fn clue_set(c: u8, i: int, n: nat) -> Set<u8> {
    Set::new(|v: u8| clue_allows(c, i, n, v))
}

/// One of the four viewing edges of the board.
#[derive(Clone, Copy)]
pub enum Edge {
    /// Looking down a column from above.
    Top,
    /// Looking up a column from below.
    Bottom,
    /// Looking along a row from the left.
    Left,
    /// Looking along a row from the right.
    Right,
}

/// Column of the cell at position `i` of the line `w` viewed from edge `e`.
pub open spec fn line_x(e: Edge, w: int, n: nat, i: int) -> int {
    match e {
        Edge::Top => w,
        Edge::Bottom => w,
        Edge::Left => i,
        Edge::Right => n - 1 - i,
    }
}

/// Row of the cell at position `i` of the line `w` viewed from edge `e`.
pub open spec fn line_y(e: Edge, w: int, n: nat, i: int) -> int {
    match e {
        Edge::Top => i,
        Edge::Bottom => n - 1 - i,
        Edge::Left => w,
        Edge::Right => w,
    }
}

/// Whether cell `(x, y)` lies on the line `w` viewed from edge `e`.
pub open spec fn on_line(e: Edge, w: int, x: int, y: int) -> bool {
    match e {
        Edge::Top => x == w,
        Edge::Bottom => x == w,
        Edge::Left => y == w,
        Edge::Right => y == w,
    }
}

/// Position of cell `(x, y)` along the line `w` viewed from edge `e`.
pub open spec fn line_pos(e: Edge, n: nat, x: int, y: int) -> int {
    match e {
        Edge::Top => y,
        Edge::Bottom => n - 1 - y,
        Edge::Left => x,
        Edge::Right => n - 1 - x,
    }
}

/// Coordinates of position `i` of the line `w` viewed from edge `e`.
fn line_cell(e: Edge, w: usize, i: usize, size: usize) -> (r: (usize, usize))
    requires
        w < size,
        i < size,
    ensures
        r.0 == line_x(e, w as int, size as nat, i as int),
        r.1 == line_y(e, w as int, size as nat, i as int),
        r.0 < size,
        r.1 < size,
        on_line(e, w as int, r.0 as int, r.1 as int),
        line_pos(e, size as nat, r.0 as int, r.1 as int) == i,
{
    match e {
        Edge::Top => (w, i),
        Edge::Bottom => (w, size - 1 - i),
        Edge::Left => (i, w),
        Edge::Right => (size - 1 - i, w),
    }
}

impl BoardSet {
    /// Withdraws `value` at cell `(x, y)` alone, reporting whether a removal
    /// happened and the number of heights left.
    fn forbid_at(&mut self, x: usize, y: usize, value: u8) -> (r: (bool, usize))
        requires
            old(self).wf(),
            old(self).valid(x as int, y as int),
        ensures
            final(self).wf(),
            final(self).size == old(self).size,
            final(self).cells@.len() == old(self).cells@.len(),
            forall|i: int, j: int|
                #![trigger final(self).at(i, j)]
                final(self).valid(i, j) && (i != x || j != y)
                    ==> final(self).at(i, j) == old(self).at(i, j),
            final(self).at(x as int, y as int).dom() == old(self).at(
                x as int,
                y as int,
            ).dom().remove(value),
            r.0 == old(self).at(x as int, y as int).dom().contains(value),
            r.1 == final(self).at(x as int, y as int).len,
            final(self).at(x as int, y as int).len == old(self).at(x as int, y as int).len - (
            if r.0 {
                1int
            } else {
                0int
            }),
            !r.0 ==> final(self).at(x as int, y as int).same(old(self).at(x as int, y as int)),
            final(self).at(x as int, y as int).vals@.len() == old(self).at(
                x as int,
                y as int,
            ).vals@.len(),
    {
        let ghost size = self.size as int;
        proof {
            lemma_cell_index(size, x as int, y as int);
        }
        let idx = x + y * self.size;
        let ghost mid = *self;
        let c = &mut self.cells[idx];
        let removed = c.forbid(value);
        let cnt = self.cells[idx].count();
        proof {
            assert forall|i: int, j: int|
                self.valid(i, j) && (i != x || j != y) implies (#[trigger] self.at(i, j))
                == mid.at(i, j) by {
                lemma_cell_index(size, i, j);
                if i + j * size == idx {
                    lemma_idx_injective(size, i, j, x as int, y as int);
                }
            }
        }
        (removed, cnt)
    }

    /// Pins cell `(x, y)` to `value`; fails, leaving the store unchanged,
    /// iff the cell no longer permits `value`.
    fn set_at(&mut self, x: usize, y: usize, value: u8) -> (r: Result<(), NoSolution>)
        requires
            old(self).wf(),
            old(self).valid(x as int, y as int),
        ensures
            final(self).wf(),
            final(self).size == old(self).size,
            final(self).cells@.len() == old(self).cells@.len(),
            forall|i: int, j: int|
                #![trigger final(self).at(i, j)]
                final(self).valid(i, j) && (i != x || j != y)
                    ==> final(self).at(i, j) == old(self).at(i, j),
            r.is_ok() <==> old(self).at(x as int, y as int).dom().contains(value),
            r.is_ok() ==> final(self).at(x as int, y as int).dom() == set![value]
                && final(self).at(x as int, y as int).is_fixed()
                && final(self).at(x as int, y as int).fixed_val() == value,
            r.is_err() ==> final(self).at(x as int, y as int).same(
                old(self).at(x as int, y as int),
            ),
            final(self).at(x as int, y as int).dom().subset_of(
                old(self).at(x as int, y as int).dom(),
            ),
            final(self).at(x as int, y as int).len <= old(self).at(x as int, y as int).len,
            final(self).at(x as int, y as int).vals@.len() == old(self).at(
                x as int,
                y as int,
            ).vals@.len(),
    {
        let ghost size = self.size as int;
        proof {
            lemma_cell_index(size, x as int, y as int);
        }
        let idx = x + y * self.size;
        let ghost mid = *self;
        let c = &mut self.cells[idx];
        let r = c.set(value);
        proof {
            assert forall|i: int, j: int|
                self.valid(i, j) && (i != x || j != y) implies (#[trigger] self.at(i, j))
                == mid.at(i, j) by {
                lemma_cell_index(size, i, j);
                if i + j * size == idx {
                    lemma_idx_injective(size, i, j, x as int, y as int);
                }
            }
        }
        r
    }
}

} // verus!

verus! {

/// Position `i` of the line `w` viewed from edge `e` still has a permitted
/// height that its clue allows.
pub open spec fn line_satisfiable(s: BoardSet, clue: u8, e: Edge, w: int, i: int) -> bool {
    exists|v: u8|
        #![trigger clue_allows(clue, i, s.size as nat, v)]
        s.dom_at(line_x(e, w, s.size as nat, i), line_y(e, w, s.size as nat, i)).contains(v)
            && clue_allows(clue, i, s.size as nat, v)
}

/// Pushing onto the worklist keeps every entry that was already there.
pub proof fn lemma_push_contains(s: Seq<(usize, usize)>, e: (usize, usize))
    ensures
        forall|t: (usize, usize)| s.contains(t) ==> #[trigger] s.push(e).contains(t),
        s.push(e).contains(e),
        forall|t: (usize, usize)| #[trigger] s.push(e).contains(t) ==> s.contains(t) || t == e,
        s.is_prefix_of(s.push(e)),
{
    assert forall|t: (usize, usize)| s.contains(t) implies s.push(e).contains(t) by {
        let k = choose|k: int| 0 <= k < s.len() && s[k] == t;
        assert(s.push(e)[k] == t);
    }
    assert(s.push(e)[s.len() as int] == e);
    assert forall|t: (usize, usize)| s.push(e).contains(t) implies s.contains(t) || t == e by {
        let k = choose|k: int| 0 <= k < s.push(e).len() && s.push(e)[k] == t;
        if k < s.len() {
            assert(s[k] == t);
        }
    }
    assert(s =~= s.push(e).subrange(0, s.len() as int));
}

/// A prefix of a prefix extends through a push.
pub proof fn lemma_prefix_push(a: Seq<(usize, usize)>, b: Seq<(usize, usize)>, e: (usize, usize))
    requires
        a.is_prefix_of(b),
    ensures
        a.is_prefix_of(b.push(e)),
{
    assert(a =~= b.push(e).subrange(0, a.len() as int));
}

impl BoardSet {
    /// Restricts every cell of the line `w` viewed from edge `e` to the
    /// heights its clue still allows, pushing cells that become pinned onto
    /// `buf`.  Fails iff some position of the line is left without any
    /// permitted height.
    #[verifier::loop_isolation(false)]
    #[verifier::rlimit(100)]
    fn prune_line(&mut self, clue: u8, e: Edge, w: usize, buf: &mut Vec<(usize, usize)>) -> (r:
        Result<(), NoSolution>)
        requires
            old(self).wf(),
            old(self).all_nonempty(),
            w < old(self).size,
            1 <= clue <= old(self).size,
        ensures
            final(self).wf(),
            final(self).size == old(self).size,
            final(self).narrows(*old(self)),
            forall|x: int, y: int|
                #![trigger final(self).at(x, y)]
                final(self).valid(x, y) && !on_line(e, w as int, x, y) ==> final(self).at(x, y)
                    == old(self).at(x, y),
            old(buf)@.is_prefix_of(final(buf)@),
            r.is_ok() ==> forall|k: int|
                old(buf)@.len() <= k < final(buf)@.len() ==> {
                    let t = #[trigger] final(buf)@[k];
                    &&& t.0 < final(self).size
                    &&& t.1 < final(self).size
                    &&& final(self).at(t.0 as int, t.1 as int).is_fixed()
                },
            forall|x: int, y: int|
                #![trigger final(self).at(x, y)]
                final(self).valid(x, y) && final(self).at(x, y).is_fixed() && !old(self).at(
                    x,
                    y,
                ).is_fixed() ==> final(buf)@.contains((x as usize, y as usize)),
            r.is_ok() ==> forall|x: int, y: int|
                #![trigger final(self).at(x, y)]
                final(self).valid(x, y) && on_line(e, w as int, x, y) ==> final(self).at(x, y).dom()
                    == old(self).at(x, y).dom().intersect(
                    clue_set(clue, line_pos(e, old(self).size as nat, x, y), old(self).size as nat),
                ),
            r.is_ok() ==> forall|x: int, y: int|
                #![trigger final(self).at(x, y)]
                final(self).valid(x, y) ==> final(self).at(x, y).len >= 1,
            r.is_ok() <==> forall|i: int|
                0 <= i < old(self).size ==> #[trigger] line_satisfiable(
                    *old(self),
                    clue,
                    e,
                    w as int,
                    i,
                ),
    {
        broadcast use lemma_same_dom;

        let ghost pre = *old(self);
        let ghost n = self.size as nat;
        let ghost size = self.size as int;
        let ghost buf0 = buf@;
        let sz = self.size;

        if clue == 1 {
            // The nearest cell holds the tallest height; later cells do not.
            let (x0, y0) = line_cell(e, w, 0, sz);
            let big = sz as u8;
            let ghost mid = *self;
            let set_r = self.set_at(x0, y0, big);
            proof {
                assert forall|k: int|
                    0 <= k < self.cells@.len() implies (#[trigger] self.cells@[k]).dom().subset_of(
                    pre.cells@[k].dom(),
                ) && self.cells@[k].len <= pre.cells@[k].len by {
                    lemma_flat_coords(size, k);
                    let i2 = k % size;
                    let j2 = k / size;
                    assert(self.at(i2, j2) == self.cells@[k]);
                    assert(pre.at(i2, j2) == pre.cells@[k]);
                }
                assert(self.narrows(pre));
            }
            if set_r.is_err() {
                proof {
                    assert(!line_satisfiable(pre, clue, e, w as int, 0));
                }
                return Err(NoSolution);
            }
            let ghost bufb = buf@;
            buf.push((x0, y0));
            proof {
                lemma_push_contains(bufb, (x0, y0));
            }
            let mut i: usize = 1;
            while i < sz
                invariant
                    1 <= i <= sz,
                    self.wf(),
                    self.size == sz,
                    self.cells@.len() == pre.cells@.len(),
                    forall|x: int, y: int|
                        #![trigger self.at(x, y)]
                        self.valid(x, y) && !(on_line(e, w as int, x, y) && line_pos(e, n, x, y)
                            < i) ==> self.at(x, y) == pre.at(x, y),
                    self.at(x0 as int, y0 as int).dom() == set![big],
                    self.at(x0 as int, y0 as int).is_fixed(),
                    forall|x: int, y: int|
                        #![trigger self.at(x, y)]
                        self.valid(x, y) && on_line(e, w as int, x, y) && 1 <= line_pos(e, n, x, y)
                            < i ==> self.at(x, y).dom() == pre.at(x, y).dom().remove(big)
                            && self.at(x, y).len >= 1,
                    buf0.is_prefix_of(buf@),
                    forall|k: int|
                        buf0.len() <= k < buf@.len() ==> {
                            let t = #[trigger] buf@[k];
                            &&& t.0 < sz
                            &&& t.1 < sz
                            &&& self.at(t.0 as int, t.1 as int).is_fixed()
                        },
                    forall|x: int, y: int|
                        #![trigger self.at(x, y)]
                        self.valid(x, y) && self.at(x, y).is_fixed() && !pre.at(x, y).is_fixed()
                            ==> buf@.contains((x as usize, y as usize)),
                    self.narrows(pre),
                decreases sz - i,
            {
                let (x, y) = line_cell(e, w, i, sz);
                let ghost mid = *self;
                let (removed, cnt) = self.forbid_at(x, y, big);
                proof {
                    lemma_cell_index(size, x as int, y as int);
                    assert(pre.cells@[x + y * size].len >= 1);
                    assert(mid.at(x as int, y as int) == pre.at(x as int, y as int));
                    assert(self.at(x as int, y as int).dom() == pre.at(
                        x as int,
                        y as int,
                    ).dom().remove(big));
                }
                proof {
                    assert forall|k: int|
                        0 <= k < self.cells@.len() implies (#[trigger] self.cells@[k]).dom().subset_of(
                        pre.cells@[k].dom(),
                    ) && self.cells@[k].len <= pre.cells@[k].len by {
                        lemma_flat_coords(size, k);
                        let i2 = k % size;
                        let j2 = k / size;
                        assert(self.at(i2, j2) == self.cells@[k]);
                        assert(pre.at(i2, j2) == pre.cells@[k]);
                        assert(mid.at(i2, j2) == mid.cells@[k]);
                        assert(mid.cells@[k].dom().subset_of(pre.cells@[k].dom()));
                    }
                    assert(self.narrows(pre));
                }
                if removed && cnt == 0 {
                    proof {
                        let xx = x as int;
                        let yy = y as int;
                        assert(mid.at(xx, yy) == pre.at(xx, yy));
                        assert(self.at(xx, yy).dom() =~= Set::<u8>::empty());
                        assert forall|v: u8|
                            !(pre.dom_at(xx, yy).contains(v) && clue_allows(clue, i as int, n, v))
                        by {
                            if pre.dom_at(xx, yy).contains(v) && v != big {
                                assert(self.at(xx, yy).dom().contains(v));
                            }
                        }
                        assert(!line_satisfiable(pre, clue, e, w as int, i as int));
                    }
                    return Err(NoSolution);
                }
                if removed && cnt == 1 {
                    let ghost bufb = buf@;
                    buf.push((x, y));
                    proof {
                        lemma_push_contains(bufb, (x, y));
                        lemma_prefix_push(buf0, bufb, (x, y));
                    }
                }
                i = i + 1;
            }
            proof {
                assert forall|x: int, y: int| self.valid(x, y) implies (#[trigger] self.at(
                    x,
                    y,
                )).len >= 1 by {
                    lemma_cell_index(size, x, y);
                    assert(pre.cells@[x + y * size].len >= 1);
                    assert(pre.at(x, y).len >= 1);
                }
                assert forall|x: int, y: int|
                    self.valid(x, y) && on_line(e, w as int, x, y) implies (#[trigger] self.at(
                    x,
                    y,
                )).dom() == pre.at(x, y).dom().intersect(clue_set(clue, line_pos(e, n, x, y), n))
                    && self.at(x, y).len >= 1 by {
                    let p = line_pos(e, n, x, y);
                    if p == 0 {
                        assert(pre.dom_at(x, y).contains(big));
                        assert(self.at(x, y).dom() =~= pre.at(x, y).dom().intersect(
                            clue_set(clue, 0, n),
                        ));
                    } else {
                        assert(self.at(x, y).dom() =~= pre.at(x, y).dom().intersect(
                            clue_set(clue, p, n),
                        ));
                    }
                }
                assert forall|i2: int| 0 <= i2 < size implies #[trigger] line_satisfiable(
                    pre,
                    clue,
                    e,
                    w as int,
                    i2,
                ) by {
                    let xx = line_x(e, w as int, n, i2);
                    let yy = line_y(e, w as int, n, i2);
                    if i2 == 0 {
                        assert(pre.dom_at(xx, yy).contains(big) && clue_allows(clue, 0, n, big));
                    } else {
                        let c = self.at(xx, yy);
                        assert(c.dom().contains(c.vals@[0]));
                        assert(pre.dom_at(xx, yy).contains(c.vals@[0]) && clue_allows(
                            clue,
                            i2,
                            n,
                            c.vals@[0],
                        ));
                    }
                }
            }
            Ok(())
        } else if clue == sz as u8 {
            // The line ascends from the edge: position i holds height i + 1.
            let mut i: usize = 0;
            while i < sz
                invariant
                    0 <= i <= sz,
                    self.wf(),
                    self.size == sz,
                    self.cells@.len() == pre.cells@.len(),
                    forall|x: int, y: int|
                        #![trigger self.at(x, y)]
                        self.valid(x, y) && !(on_line(e, w as int, x, y) && line_pos(e, n, x, y)
                            < i) ==> self.at(x, y) == pre.at(x, y),
                    forall|x: int, y: int|
                        #![trigger pre.at(x, y)]
                        self.valid(x, y) && on_line(e, w as int, x, y) && 0 <= line_pos(e, n, x, y)
                            < i ==> pre.at(x, y).dom().contains(
                            (line_pos(e, n, x, y) + 1) as u8,
                        ),
                    forall|x: int, y: int|
                        #![trigger self.at(x, y)]
                        self.valid(x, y) && on_line(e, w as int, x, y) && 0 <= line_pos(e, n, x, y)
                            < i ==> self.at(x, y).dom() == set![(line_pos(e, n, x, y) + 1) as u8],
                    forall|x: int, y: int|
                        #![trigger self.at(x, y)]
                        self.valid(x, y) && on_line(e, w as int, x, y) && 0 <= line_pos(e, n, x, y)
                            < i ==> self.at(x, y).is_fixed(),
                    buf0.is_prefix_of(buf@),
                    forall|k: int|
                        buf0.len() <= k < buf@.len() ==> {
                            let t = #[trigger] buf@[k];
                            &&& t.0 < sz
                            &&& t.1 < sz
                            &&& self.at(t.0 as int, t.1 as int).is_fixed()
                        },
                    forall|x: int, y: int|
                        #![trigger self.at(x, y)]
                        self.valid(x, y) && self.at(x, y).is_fixed() && !pre.at(x, y).is_fixed()
                            ==> buf@.contains((x as usize, y as usize)),
                    self.narrows(pre),
                decreases sz - i,
            {
                let (x, y) = line_cell(e, w, i, sz);
                let ghost mid = *self;
                let v = (i + 1) as u8;
                let set_r = self.set_at(x, y, v);
                proof {
                    lemma_cell_index(size, x as int, y as int);
                    assert(mid.at(x as int, y as int) == pre.at(x as int, y as int));
                    if set_r.is_ok() {
                        assert(pre.at(x as int, y as int).dom().contains(v));
                        assert(line_pos(e, n, x as int, y as int) == i as int);
                        assert(self.at(x as int, y as int).dom() == set![
                            (line_pos(e, n, x as int, y as int) + 1) as u8,
                        ]);
                        assert(self.at(x as int, y as int).is_fixed());
                    }
                }
                proof {
                    assert forall|k: int|
                        0 <= k < self.cells@.len() implies (#[trigger] self.cells@[k]).dom().subset_of(
                        pre.cells@[k].dom(),
                    ) && self.cells@[k].len <= pre.cells@[k].len by {
                        lemma_flat_coords(size, k);
                        let i2 = k % size;
                        let j2 = k / size;
                        assert(self.at(i2, j2) == self.cells@[k]);
                        assert(pre.at(i2, j2) == pre.cells@[k]);
                        assert(mid.at(i2, j2) == mid.cells@[k]);
                        assert(mid.cells@[k].dom().subset_of(pre.cells@[k].dom()));
                    }
                    assert(self.narrows(pre));
                }
                if set_r.is_err() {
                    proof {
                        let xx = x as int;
                        let yy = y as int;
                        assert(mid.at(xx, yy) == pre.at(xx, yy));
                        assert(!line_satisfiable(pre, clue, e, w as int, i as int));
                    }
                    return Err(NoSolution);
                }
                let ghost bufb = buf@;
                buf.push((x, y));
                proof {
                    lemma_push_contains(bufb, (x, y));
                    lemma_prefix_push(buf0, bufb, (x, y));
                    assert forall|x2: int, y2: int|
                        #![trigger self.at(x2, y2)]
                        self.valid(x2, y2) && on_line(e, w as int, x2, y2) && 0 <= line_pos(
                            e,
                            n,
                            x2,
                            y2,
                        ) < i + 1 implies {
                        let p = line_pos(e, n, x2, y2);
                        &&& pre.at(x2, y2).dom().contains((p + 1) as u8)
                        &&& self.at(x2, y2).dom() == set![(p + 1) as u8]
                        &&& self.at(x2, y2).is_fixed()
                    } by {
                        let p = line_pos(e, n, x2, y2);
                        if p == i as int {
                            assert(x2 == x as int && y2 == y as int);
                            assert((p + 1) as u8 == v);
                        } else {
                            assert(self.at(x2, y2) == mid.at(x2, y2));
                        }
                    }
                }
                i = i + 1;
            }
            proof {
                assert forall|x: int, y: int| self.valid(x, y) implies (#[trigger] self.at(
                    x,
                    y,
                )).len >= 1 by {
                    lemma_cell_index(size, x, y);
                    assert(pre.cells@[x + y * size].len >= 1);
                    assert(pre.at(x, y).len >= 1);
                }
                assert forall|x: int, y: int|
                    self.valid(x, y) && on_line(e, w as int, x, y) implies (#[trigger] self.at(
                    x,
                    y,
                )).dom() == pre.at(x, y).dom().intersect(clue_set(clue, line_pos(e, n, x, y), n))
                    && self.at(x, y).len >= 1 by {
                    let p = line_pos(e, n, x, y);
                    assert(self.at(x, y).dom() =~= pre.at(x, y).dom().intersect(
                        clue_set(clue, p, n),
                    ));
                }
                assert forall|i2: int| 0 <= i2 < size implies #[trigger] line_satisfiable(
                    pre,
                    clue,
                    e,
                    w as int,
                    i2,
                ) by {
                    let xx = line_x(e, w as int, n, i2);
                    let yy = line_y(e, w as int, n, i2);
                    assert(self.at(xx, yy).is_fixed());
                    assert(pre.dom_at(xx, yy).contains((i2 + 1) as u8) && clue_allows(
                        clue,
                        i2,
                        n,
                        (i2 + 1) as u8,
                    ));
                }
            }
            Ok(())
        } else {
            // A height of sz - clue + 2 + i or more at position i would hide
            // too many later cells.
            let mut i: usize = 0;
            while i < sz
                invariant
                    0 <= i <= sz,
                    self.wf(),
                    self.size == sz,
                    self.cells@.len() == pre.cells@.len(),
                    2 <= clue < sz,
                    forall|x: int, y: int|
                        #![trigger self.at(x, y)]
                        self.valid(x, y) && !(on_line(e, w as int, x, y) && line_pos(e, n, x, y)
                            < i) ==> self.at(x, y) == pre.at(x, y),
                    forall|x: int, y: int|
                        #![trigger self.at(x, y)]
                        self.valid(x, y) && on_line(e, w as int, x, y) && 0 <= line_pos(e, n, x, y)
                            < i ==> self.at(x, y).dom() == pre.at(x, y).dom().intersect(
                            clue_set(clue, line_pos(e, n, x, y), n),
                        ) && self.at(x, y).len >= 1,
                    buf0.is_prefix_of(buf@),
                    forall|k: int|
                        buf0.len() <= k < buf@.len() ==> {
                            let t = #[trigger] buf@[k];
                            &&& t.0 < sz
                            &&& t.1 < sz
                            &&& self.at(t.0 as int, t.1 as int).is_fixed()
                        },
                    forall|x: int, y: int|
                        #![trigger self.at(x, y)]
                        self.valid(x, y) && self.at(x, y).is_fixed() && !pre.at(x, y).is_fixed()
                            ==> buf@.contains((x as usize, y as usize)),
                    self.narrows(pre),
                decreases sz - i,
            {
                let (x, y) = line_cell(e, w, i, sz);
                let first = sz - clue as usize + 2 + i;
                proof {
                    lemma_cell_index(size, x as int, y as int);
                    assert(pre.cells@[x + y * size].len >= 1);
                    assert(self.at(x as int, y as int) == pre.at(x as int, y as int));
                    assert(self.at(x as int, y as int).dom() =~= Set::new(
                        |v: u8|
                            pre.at(x as int, y as int).dom().contains(v) && ((v as int) < first
                                || (v as int) >= first),
                    ));
                }
                let mut tr = first;
                while tr <= sz
                    invariant
                        first <= tr,
                        tr <= sz + 1 || tr == first,
                        first == sz - clue + 2 + i,
                        2 <= clue < sz,
                        0 <= i < sz,
                        x == line_x(e, w as int, n, i as int),
                        y == line_y(e, w as int, n, i as int),
                        x < sz,
                        y < sz,
                        on_line(e, w as int, x as int, y as int),
                        line_pos(e, n, x as int, y as int) == i,
                        self.wf(),
                        self.size == sz,
                        self.cells@.len() == pre.cells@.len(),
                        forall|x2: int, y2: int|
                            #![trigger self.at(x2, y2)]
                            self.valid(x2, y2) && !(on_line(e, w as int, x2, y2) && line_pos(
                                e,
                                n,
                                x2,
                                y2,
                            ) < i) && !(x2 == x && y2 == y) ==> self.at(x2, y2) == pre.at(x2, y2),
                        forall|x2: int, y2: int|
                            #![trigger self.at(x2, y2)]
                            self.valid(x2, y2) && on_line(e, w as int, x2, y2) && 0 <= line_pos(
                                e,
                                n,
                                x2,
                                y2,
                            ) < i ==> self.at(x2, y2).dom() == pre.at(x2, y2).dom().intersect(
                                clue_set(clue, line_pos(e, n, x2, y2), n),
                            ) && self.at(x2, y2).len >= 1,
                        self.at(x as int, y as int).dom() == Set::new(
                            |v: u8|
                                pre.at(x as int, y as int).dom().contains(v) && ((v as int) < first
                                    || (v as int) >= tr),
                        ),
                        self.at(x as int, y as int).len >= 1,
                        buf0.is_prefix_of(buf@),
                        forall|k: int|
                            buf0.len() <= k < buf@.len() ==> {
                                let t = #[trigger] buf@[k];
                                &&& t.0 < sz
                                &&& t.1 < sz
                                &&& self.at(t.0 as int, t.1 as int).is_fixed()
                            },
                        forall|x2: int, y2: int|
                            #![trigger self.at(x2, y2)]
                            self.valid(x2, y2) && self.at(x2, y2).is_fixed() && !pre.at(
                                x2,
                                y2,
                            ).is_fixed() ==> buf@.contains((x2 as usize, y2 as usize)),
                        self.narrows(pre),
                    decreases sz + 1 - tr,
                {
                    let ghost mid = *self;
                    let (removed, cnt) = self.forbid_at(x, y, tr as u8);
                    proof {
                        assert forall|k: int|
                            0 <= k < self.cells@.len() implies (#[trigger] self.cells@[k]).dom().subset_of(
                            pre.cells@[k].dom(),
                        ) && self.cells@[k].len <= pre.cells@[k].len by {
                            lemma_flat_coords(size, k);
                            let i2 = k % size;
                            let j2 = k / size;
                            assert(self.at(i2, j2) == self.cells@[k]);
                            assert(pre.at(i2, j2) == pre.cells@[k]);
                            assert(mid.at(i2, j2) == mid.cells@[k]);
                            assert(mid.cells@[k].dom().subset_of(pre.cells@[k].dom()));
                        }
                        assert(self.narrows(pre));
                    }
                    proof {
                        assert(self.at(x as int, y as int).dom() =~= Set::new(
                            |v: u8|
                                pre.at(x as int, y as int).dom().contains(v) && ((v as int) < first
                                    || (v as int) >= tr + 1),
                        ));
                    }
                    if removed && cnt == 0 {
                        proof {
                            let xx = x as int;
                            let yy = y as int;
                            assert forall|v: u8|
                                !(pre.dom_at(xx, yy).contains(v) && clue_allows(
                                    clue,
                                    i as int,
                                    n,
                                    v,
                                )) by {
                                if pre.dom_at(xx, yy).contains(v) && (v as int) < first {
                                    assert(self.at(xx, yy).dom().contains(v));
                                }
                            }
                            assert(!line_satisfiable(pre, clue, e, w as int, i as int));
                        }
                        return Err(NoSolution);
                    }
                    if removed && cnt == 1 {
                        let ghost bufb = buf@;
                        buf.push((x, y));
                        proof {
                            lemma_push_contains(bufb, (x, y));
                            lemma_prefix_push(buf0, bufb, (x, y));
                        }
                    }
                    tr = tr + 1;
                }
                proof {
                    assert(self.at(x as int, y as int).dom() =~= pre.at(
                        x as int,
                        y as int,
                    ).dom().intersect(clue_set(clue, i as int, n)));
                }
                i = i + 1;
            }
            proof {
                assert forall|x: int, y: int| self.valid(x, y) implies (#[trigger] self.at(
                    x,
                    y,
                )).len >= 1 by {
                    lemma_cell_index(size, x, y);
                    assert(pre.cells@[x + y * size].len >= 1);
                    assert(pre.at(x, y).len >= 1);
                }
                assert forall|i2: int| 0 <= i2 < size implies #[trigger] line_satisfiable(
                    pre,
                    clue,
                    e,
                    w as int,
                    i2,
                ) by {
                    let xx = line_x(e, w as int, n, i2);
                    let yy = line_y(e, w as int, n, i2);
                    let c = self.at(xx, yy);
                    assert(c.dom().contains(c.vals@[0]));
                    assert(pre.dom_at(xx, yy).contains(c.vals@[0]) && clue_allows(
                        clue,
                        i2,
                        n,
                        c.vals@[0],
                    ));
                }
            }
            Ok(())
        }
    }
}

} // verus!

verus! {

/// Heights that the full header still allows at cell `(x, y)`: the four
/// clues of its column (top, bottom) and row (left, right) all agree.
pub open spec fn header_allows(h: Seq<u8>, n: nat, x: int, y: int, v: u8) -> bool {
    &&& clue_allows(h[x], y, n, v)
    &&& clue_allows(h[n + x], n - 1 - y, n, v)
    &&& clue_allows(h[2 * n + y], x, n, v)
    &&& clue_allows(h[3 * n + y], n - 1 - x, n, v)
}

/// The set of heights that the full header still allows at cell `(x, y)`.
pub open spec fn header_allows_set(h: Seq<u8>, n: nat, x: int, y: int) -> Set<u8> {
    Set::new(|v: u8| header_allows(h, n, x, y, v))
}

/// Cell `(x, y)` of store `s` still has a height that the header allows.
pub open spec fn header_satisfiable_at(s: BoardSet, h: Seq<u8>, x: int, y: int) -> bool {
    exists|v: u8|
        #![trigger header_allows(h, s.size as nat, x, y, v)]
        s.dom_at(x, y).contains(v) && header_allows(h, s.size as nat, x, y, v)
}

/// The edge swept during phase `p` of the header sweep.
pub open spec fn phase_edge(p: int) -> Edge {
    if p == 0 {
        Edge::Top
    } else if p == 1 {
        Edge::Bottom
    } else if p == 2 {
        Edge::Left
    } else {
        Edge::Right
    }
}

/// Heights allowed at `(x, y)` by the clues already swept: all edges of
/// phases before `ph`, and the lines before `wc` of phase `ph`.
pub open spec fn swept_allows(h: Seq<u8>, n: nat, x: int, y: int, ph: int, wc: int) -> Set<u8> {
    Set::new(
        |v: u8|
            {
                &&& ((0 < ph || (0 == ph && x < wc)) ==> clue_allows(h[x], y, n, v))
                &&& ((1 < ph || (1 == ph && x < wc)) ==> clue_allows(h[n + x], n - 1 - y, n, v))
                &&& ((2 < ph || (2 == ph && y < wc)) ==> clue_allows(h[2 * n + y], x, n, v))
                &&& ((3 < ph || (3 == ph && y < wc)) ==> clue_allows(h[3 * n + y], n - 1 - x, n, v))
            },
    )
}

/// Sweeping one more line refines the swept constraint set of its cells by
/// exactly that line's clue.
pub proof fn lemma_swept_step(h: Seq<u8>, n: nat, x: int, y: int, ph: int, w: int, clue: u8)
    requires
        0 <= ph < 4,
        0 <= w < n,
        0 <= x < n,
        0 <= y < n,
        on_line(phase_edge(ph), w, x, y),
        clue == h[ph * n + w],
    ensures
        swept_allows(h, n, x, y, ph, w).intersect(
            clue_set(clue, line_pos(phase_edge(ph), n, x, y), n),
        ) == swept_allows(h, n, x, y, ph, w + 1),
{
    let e = phase_edge(ph);
    let p = line_pos(e, n, x, y);
    if ph == 0 {
        assert(x == w);
        assert(ph * n + w == x);
        assert(p == y);
    } else if ph == 1 {
        assert(x == w);
        assert(ph * n + w == n + x);
        assert(p == n - 1 - y);
    } else if ph == 2 {
        assert(y == w);
        assert(ph * n + w == 2 * n + y);
        assert(p == x);
    } else {
        assert(y == w);
        assert(ph * n + w == 3 * n + y);
        assert(p == n - 1 - x);
    }
    assert(swept_allows(h, n, x, y, ph, w).intersect(clue_set(clue, p, n)) =~= swept_allows(
        h,
        n,
        x,
        y,
        ph,
        w + 1,
    ));
}

impl BoardSet {
    /// Applies the whole header to the store: every cell keeps exactly the
    /// heights that all four of its edge clues allow, and cells pinned by
    /// this pruning are pushed onto `buf`.
    ///
    /// Succeeds iff afterwards no cell is left without a permitted height,
    /// which also means that every domain stays non-empty.
    #[verifier::loop_isolation(false)]
    #[verifier::rlimit(100)]
    pub fn account_for_header(&mut self, header: &[u8], buf: &mut Vec<(usize, usize)>) -> (r:
        Result<(), NoSolution>)
        requires
            old(self).wf(),
            old(self).all_nonempty(),
            old(self).buf_ok(old(buf)@),
            old(self).clean(old(buf)@),
            header@.len() == 4 * old(self).size,
            forall|k: int| 0 <= k < header@.len() ==> 1 <= #[trigger] header@[k] <= old(self).size,
        ensures
            final(self).wf(),
            final(self).size == old(self).size,
            final(self).narrows(*old(self)),
            old(buf)@.is_prefix_of(final(buf)@),
            r.is_ok() ==> forall|x: int, y: int|
                #![trigger final(self).dom_at(x, y)]
                final(self).valid(x, y) ==> final(self).dom_at(x, y) == old(self).dom_at(
                    x,
                    y,
                ).intersect(header_allows_set(header@, old(self).size as nat, x, y)),
            r.is_ok() ==> final(self).all_nonempty(),
            r.is_ok() ==> final(self).buf_ok(final(buf)@),
            r.is_ok() ==> final(self).clean(final(buf)@),
            r.is_ok() <==> forall|x: int, y: int|
                final(self).valid(x, y) ==> #[trigger] header_satisfiable_at(
                    *old(self),
                    header@,
                    x,
                    y,
                ),
    {
        broadcast use lemma_same_dom;

        let ghost pre = *old(self);
        let ghost buf0 = old(buf)@;
        let ghost n = self.size as nat;
        let ghost size = self.size as int;
        let ghost h = header@;
        let sz = self.size;

        proof {
            assert forall|x: int, y: int| self.valid(x, y) implies (#[trigger] self.dom_at(x, y))
                == pre.dom_at(x, y).intersect(swept_allows(h, n, x, y, 0, 0)) by {
                lemma_cell_index(size, x, y);
                assert(self.dom_at(x, y) =~= pre.dom_at(x, y).intersect(
                    swept_allows(h, n, x, y, 0, 0),
                ));
            }
        }

        let mut ph: usize = 0;
        while ph < 4
            invariant
                0 <= ph <= 4,
                self.wf(),
                self.size == sz,
                self.all_nonempty(),
                self.narrows(pre),
                forall|x: int, y: int|
                    #![trigger self.dom_at(x, y)]
                    self.valid(x, y) ==> self.dom_at(x, y) == pre.dom_at(x, y).intersect(
                        swept_allows(h, n, x, y, ph as int, 0),
                    ),
                buf0.is_prefix_of(buf@),
                self.buf_ok(buf@),
                self.clean(buf@),
                forall|x: int, y: int|
                    #![trigger self.at(x, y)]
                    self.valid(x, y) && self.at(x, y).is_fixed() && !pre.at(x, y).is_fixed()
                        ==> buf@.contains((x as usize, y as usize)),
            decreases 4 - ph,
        {
            let e = if ph == 0 {
                Edge::Top
            } else if ph == 1 {
                Edge::Bottom
            } else if ph == 2 {
                Edge::Left
            } else {
                Edge::Right
            };
            proof {
                assert(e == phase_edge(ph as int));
            }
            let mut w: usize = 0;
            while w < sz
                invariant
                    0 <= w <= sz,
                    0 <= ph < 4,
                    e == phase_edge(ph as int),
                    self.wf(),
                    self.size == sz,
                    self.all_nonempty(),
                    self.narrows(pre),
                    forall|x: int, y: int|
                        #![trigger self.dom_at(x, y)]
                        self.valid(x, y) ==> self.dom_at(x, y) == pre.dom_at(x, y).intersect(
                            swept_allows(h, n, x, y, ph as int, w as int),
                        ),
                    buf0.is_prefix_of(buf@),
                    self.buf_ok(buf@),
                    self.clean(buf@),
                    forall|x: int, y: int|
                        #![trigger self.at(x, y)]
                        self.valid(x, y) && self.at(x, y).is_fixed() && !pre.at(x, y).is_fixed()
                            ==> buf@.contains((x as usize, y as usize)),
                decreases sz - w,
            {
                proof {
                    assert(ph * sz + w < 4 * sz) by (nonlinear_arith)
                        requires
                            0 <= ph < 4,
                            0 <= w < sz,
                    ;
                }
                let clue = header[ph * sz + w];
                let ghost mid = *self;
                let ghost bufm = buf@;
                let r = self.prune_line(clue, e, w, buf);
                if r.is_err() {
                    proof {
                        let i = choose|i: int|
                            0 <= i < size && !line_satisfiable(mid, clue, e, w as int, i);
                        let xx = line_x(e, w as int, n, i);
                        let yy = line_y(e, w as int, n, i);
                        lemma_cell_index(size, xx, yy);
                        assert forall|v: u8|
                            !(pre.dom_at(xx, yy).contains(v) && header_allows(h, n, xx, yy, v))
                        by {
                            if pre.dom_at(xx, yy).contains(v) && header_allows(h, n, xx, yy, v) {
                                assert(swept_allows(h, n, xx, yy, ph as int, w as int).contains(
                                    v,
                                ));
                                assert(mid.dom_at(xx, yy).contains(v));
                                assert(clue_allows(clue, line_pos(e, n, xx, yy), n, v));
                                assert(line_pos(e, n, xx, yy) == i);
                            }
                        }
                        assert(!header_satisfiable_at(pre, h, xx, yy));
                    }
                    return Err(NoSolution);
                }
                proof {
                    let post = *self;
                    // Swept constraints advance by one line.
                    assert(clue == h[ph as int * size + w as int]);
                    assert forall|x: int, y: int| post.valid(x, y) implies (#[trigger] post.dom_at(
                        x,
                        y,
                    )) == pre.dom_at(x, y).intersect(
                        swept_allows(h, n, x, y, ph as int, w + 1),
                    ) by {
                        lemma_cell_index(size, x, y);
                        assert(mid.dom_at(x, y) == pre.dom_at(x, y).intersect(
                            swept_allows(h, n, x, y, ph as int, w as int),
                        ));
                        if on_line(e, w as int, x, y) {
                            assert(post.at(x, y).dom() == mid.at(x, y).dom().intersect(
                                clue_set(clue, line_pos(e, n, x, y), n),
                            ));
                            lemma_swept_step(h, n, x, y, ph as int, w as int, clue);
                            assert(post.dom_at(x, y) =~= pre.dom_at(x, y).intersect(
                                swept_allows(h, n, x, y, ph as int, w + 1),
                            ));
                        } else {
                            assert(post.at(x, y).same(mid.at(x, y)));
                            assert(post.dom_at(x, y) == mid.dom_at(x, y));
                            assert(post.dom_at(x, y) =~= pre.dom_at(x, y).intersect(
                                swept_allows(h, n, x, y, ph as int, w + 1),
                            ));
                        }
                    }
                    // No domain emptied.
                    assert forall|k: int|
                        0 <= k < post.cells@.len() implies (#[trigger] post.cells@[k]).len
                        >= 1 by {
                        lemma_flat_coords(size, k);
                        let i2 = k % size;
                        let j2 = k / size;
                        assert(mid.cells@[k].len >= 1);
                        assert(mid.at(i2, j2) == mid.cells@[k]);
                        assert(post.at(i2, j2).len >= 1);
                    }
                    // Worklist: prefix and entry facts.
                    assert forall|t: (usize, usize)| bufm.contains(t) implies buf@.contains(t) by {
                        let k = choose|k: int| 0 <= k < bufm.len() && bufm[k] == t;
                        assert(buf@[k] == t);
                    }
                    assert forall|k: int| 0 <= k < buf@.len() implies {
                        let t = #[trigger] buf@[k];
                        &&& t.0 < post.size
                        &&& t.1 < post.size
                        &&& post.at(t.0 as int, t.1 as int).is_fixed()
                    } by {
                        let t = buf@[k];
                        if k < bufm.len() {
                            assert(bufm[k] == t);
                            lemma_cell_index(size, t.0 as int, t.1 as int);
                            assert(mid.at(t.0 as int, t.1 as int).is_fixed());
                            assert(post.at(t.0 as int, t.1 as int).len >= 1);
                            assert(post.at(t.0 as int, t.1 as int).len <= mid.at(
                                t.0 as int,
                                t.1 as int,
                            ).len);
                        }
                    }
                    // Every pinned cell is queued or settled.
                    assert forall|x: int, y: int|
                        post.valid(x, y) && (#[trigger] post.at(x, y)).is_fixed() && !buf@.contains(
                            (x as usize, y as usize),
                        ) implies post.settled(x, y) by {
                        lemma_cell_index(size, x, y);
                        if !mid.at(x, y).is_fixed() {
                            assert(buf@.contains((x as usize, y as usize)));
                        } else if !pre.at(x, y).is_fixed() {
                            assert(bufm.contains((x as usize, y as usize)));
                            assert(buf@.contains((x as usize, y as usize)));
                        } else {
                            if buf0.contains((x as usize, y as usize)) {
                                let k = choose|k: int|
                                    0 <= k < buf0.len() && buf0[k] == (x as usize, y as usize);
                                assert(buf@[k] == (x as usize, y as usize));
                                assert(false);
                            }
                            assert(pre.settled(x, y));
                            lemma_settled_preserved(post, pre, x, y);
                        }
                    }
                    // Pinned-but-not-before cells are queued.
                    assert forall|x: int, y: int|
                        post.valid(x, y) && (#[trigger] post.at(x, y)).is_fixed() && !pre.at(
                            x,
                            y,
                        ).is_fixed() implies buf@.contains((x as usize, y as usize)) by {
                        lemma_cell_index(size, x, y);
                        if mid.at(x, y).is_fixed() {
                            assert(bufm.contains((x as usize, y as usize)));
                        }
                    }
                }
                w = w + 1;
            }
            proof {
                assert forall|x: int, y: int| self.valid(x, y) implies (#[trigger] self.dom_at(
                    x,
                    y,
                )) == pre.dom_at(x, y).intersect(
                    swept_allows(h, n, x, y, ph + 1, 0),
                ) by {
                    lemma_cell_index(size, x, y);
                    assert(self.dom_at(x, y) == pre.dom_at(x, y).intersect(
                        swept_allows(h, n, x, y, ph as int, sz as int),
                    ));
                    assert(pre.dom_at(x, y).intersect(swept_allows(h, n, x, y, ph as int, sz as int))
                        =~= pre.dom_at(x, y).intersect(swept_allows(h, n, x, y, ph + 1, 0)));
                }
            }
            ph = ph + 1;
        }
        proof {
            assert forall|x: int, y: int| self.valid(x, y) implies (#[trigger] self.dom_at(x, y))
                == pre.dom_at(x, y).intersect(header_allows_set(h, n, x, y)) by {
                lemma_cell_index(size, x, y);
                assert(self.dom_at(x, y) == pre.dom_at(x, y).intersect(
                    swept_allows(h, n, x, y, 4, 0),
                ));
                assert(pre.dom_at(x, y).intersect(swept_allows(h, n, x, y, 4, 0))
                    =~= pre.dom_at(x, y).intersect(header_allows_set(h, n, x, y)));
            }
            assert forall|x: int, y: int| self.valid(x, y) implies #[trigger] header_satisfiable_at(
                pre,
                h,
                x,
                y,
            ) by {
                lemma_cell_index(size, x, y);
                let c = self.at(x, y);
                assert(c.len >= 1);
                assert(c.dom().contains(c.vals@[0]));
                assert(self.dom_at(x, y).contains(c.vals@[0]));
                assert(self.dom_at(x, y) == pre.dom_at(x, y).intersect(
                    header_allows_set(h, n, x, y),
                ));
                assert(header_allows_set(h, n, x, y).contains(c.vals@[0]));
                assert(pre.dom_at(x, y).contains(c.vals@[0]) && header_allows(
                    h,
                    n,
                    x,
                    y,
                    c.vals@[0],
                ));
            }
        }
        Ok(())
    }
}

} // verus!

verus! {

impl Clone for BoardSet {
    /// Clones carry the same information, cell for cell: this is the
    /// snapshot operation of the backtracking search.
    fn clone(&self) -> (res: Self)
        ensures
            res.same_set(*self),
            res.size == self.size,
    {
        let mut cells: Vec<BoardCell> = Vec::new();
        let total = self.cells.len();
        let mut i: usize = 0;
        while i < total
            invariant
                0 <= i <= total,
                total == self.cells@.len(),
                cells@.len() == i,
                forall|k: int| 0 <= k < i ==> (#[trigger] cells@[k]).same(self.cells@[k]),
            decreases total - i,
        {
            cells.push(self.cells[i].clone());
            i = i + 1;
        }
        BoardSet { size: self.size, cells }
    }
}

} // verus!

verus! {

/// Stores that carry the same information share well-formedness, pinned
/// cells, non-emptiness and the propagation fixpoint property.
pub proof fn lemma_same_set_props(a: BoardSet, b: BoardSet)
    requires
        a.same_set(b),
        a.size == b.size,
    ensures
        b.same_set(a),
        a.narrows(b),
        b.narrows(a),
        b.wf() ==> a.wf(),
        b.all_nonempty() ==> a.all_nonempty(),
        b.wf() && b.fixpoint() ==> a.fixpoint(),
{
    broadcast use lemma_same_dom;

    assert forall|i: int| 0 <= i < b.cells@.len() implies (#[trigger] b.cells@[i]).same(
        a.cells@[i],
    ) by {
        assert(a.cells@[i].same(b.cells@[i]));
    }
    assert forall|i: int|
        0 <= i < a.cells@.len() implies (#[trigger] a.cells@[i]).dom().subset_of(b.cells@[i].dom())
        && a.cells@[i].len <= b.cells@[i].len by {
        assert(a.cells@[i].same(b.cells@[i]));
    }
    assert forall|i: int|
        0 <= i < b.cells@.len() implies (#[trigger] b.cells@[i]).dom().subset_of(a.cells@[i].dom())
        && b.cells@[i].len <= a.cells@[i].len by {
        assert(a.cells@[i].same(b.cells@[i]));
    }
    if b.wf() {
        assert forall|i: int| 0 <= i < a.cells@.len() implies (#[trigger] a.cells@[i]).wf(
            a.size as nat,
        ) by {
            assert(a.cells@[i].same(b.cells@[i]));
            assert(b.cells@[i].wf(b.size as nat));
        }
    }
    if b.wf() && b.fixpoint() {
        assert forall|x: int, y: int|
            a.valid(x, y) && (#[trigger] a.at(x, y)).is_fixed() implies a.settled(x, y) by {
            lemma_cell_index(a.size as int, x, y);
            assert(a.at(x, y).same(b.at(x, y)));
            assert(b.at(x, y).is_fixed());
            assert(b.settled(x, y));
            assert forall|i: int|
                0 <= i < a.size && i != x implies !(#[trigger] a.dom_at(i, y)).contains(
                a.at(x, y).fixed_val(),
            ) by {
                lemma_cell_index(a.size as int, i, y);
                assert(a.at(i, y).same(b.at(i, y)));
                assert(!b.dom_at(i, y).contains(b.at(x, y).fixed_val()));
            }
            assert forall|j: int|
                0 <= j < a.size && j != y implies !(#[trigger] a.dom_at(x, j)).contains(
                a.at(x, y).fixed_val(),
            ) by {
                lemma_cell_index(a.size as int, x, j);
                assert(a.at(x, j).same(b.at(x, j)));
                assert(!b.dom_at(x, j).contains(b.at(x, y).fixed_val()));
            }
        }
    }
}

} // verus!

verus! {

impl BoardSet {
    /// The store still permits every cell of the (row-major) board `b`.
    pub open spec fn covers(self, b: Seq<u8>) -> bool {
        &&& b.len() == self.cells@.len()
        &&& forall|k: int|
            0 <= k < self.cells@.len() ==> (#[trigger] self.cells@[k]).dom().contains(b[k])
    }

    /// `b` is a duplicate-free board that the store still permits: a
    /// candidate completion.
    pub open spec fn candidate(self, b: Seq<u8>) -> bool {
        &&& self.covers(b)
        &&& crate::check::rows_distinct(b, self.size as nat)
        &&& crate::check::cols_distinct(b, self.size as nat)
    }
}

/// Some cell of row `y` or column `x`, other than `(x, y)` itself, permits
/// exactly the height `v`: withdrawing `v` there would empty it.
pub open spec fn some_neighbor_pinned_to(s: BoardSet, x: int, y: int, v: u8) -> bool {
    exists|i: int, j: int|
        #![trigger s.at(i, j)]
        s.valid(i, j) && (i == x || j == y) && !(i == x && j == y) && s.at(i, j).dom() == set![v]
}

/// Every domain of `t` is included in the matching domain of `s`.
pub open spec fn dom_subset(t: BoardSet, s: BoardSet) -> bool {
    &&& t.cells@.len() == s.cells@.len()
    &&& forall|k: int|
        0 <= k < t.cells@.len() ==> (#[trigger] t.cells@[k]).dom().subset_of(s.cells@[k].dom())
}

/// A well-formed propagation fixpoint with no empty domain, included in `s`:
/// what any sound propagation of `s` must keep.  The propagator's result is
/// the greatest of these, so it depends only on the store it starts from.
pub open spec fn clean_substore(t: BoardSet, s: BoardSet) -> bool {
    &&& t.wf()
    &&& t.size == s.size
    &&& dom_subset(t, s)
    &&& t.fixpoint()
    &&& t.all_nonempty()
}

/// Stores that carry the same information cover the same boards.
pub proof fn lemma_covers_same(a: BoardSet, b2: BoardSet, board: Seq<u8>)
    requires
        a.same_set(b2),
        b2.covers(board),
    ensures
        a.covers(board),
{
    broadcast use lemma_same_dom;

    assert forall|k: int|
        0 <= k < a.cells@.len() implies (#[trigger] a.cells@[k]).dom().contains(board[k]) by {
        assert(a.cells@[k].same(b2.cells@[k]));
        assert(b2.cells@[k].dom().contains(board[k]));
    }
}

/// A domain included in a singleton in a duplicate-free cell is that
/// singleton.
pub proof fn lemma_subset_singleton(c: BoardCell, v: u8)
    requires
        c.inv(),
        c.len >= 1,
        c.dom().subset_of(set![v]),
    ensures
        c.is_fixed(),
        c.fixed_val() == v,
        c.dom() == set![v],
{
    assert(c.dom().contains(c.vals@[0]));
    assert(c.vals@[0] == v);
    if c.len >= 2 {
        assert(c.dom().contains(c.vals@[1]));
        assert(false);
    }
    lemma_fixed_dom(c);
}

} // verus!
