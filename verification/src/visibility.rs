//! Visible-count reasoning: how many cells of a line can be seen from one of
//! its ends, where a cell is visible iff it is strictly taller than every cell
//! between it and the viewer.

use vstd::prelude::*;

verus! {

/// Number of running maxima of `line` from position `i` on, given that the
/// tallest cell seen so far has height `mx`.
pub open spec fn visible_from(line: Seq<u8>, i: int, mx: u8) -> nat
    decreases line.len() - i when 0 <= i <= line.len()
{
    if i >= line.len() {
        0
    } else if line[i] > mx {
        1 + visible_from(line, i + 1, line[i])
    } else {
        visible_from(line, i + 1, mx)
    }
}

/// Number of cells of `line` visible from its start.
pub open spec fn visible(line: Seq<u8>) -> nat {
    visible_from(line, 0, 0)
}

/// Once the running maximum has reached the height bound of the line, no
/// further cell is visible.
pub proof fn lemma_visible_saturated(line: Seq<u8>, i: int, mx: u8)
    requires
        0 <= i <= line.len(),
        forall|k: int| 0 <= k < line.len() ==> line[k] <= mx,
    ensures
        visible_from(line, i, mx) == 0,
    decreases line.len() - i,
{
    if i < line.len() {
        lemma_visible_saturated(line, i + 1, mx);
    }
}

/// A cell coordinate pair addresses a cell inside the row-major grid.
pub proof fn lemma_index_bound(n: nat, a: int, b: int)
    requires
        0 <= a < n,
        0 <= b < n,
    ensures
        0 <= a * n + b < n * n,
{
    assert(a * n + b < n * n) by (nonlinear_arith)
        requires
            0 <= a < n,
            0 <= b < n,
    ;
}

/// Row `y` of a row-major `n`x`n` board, read from the left edge.
pub open spec fn row_seq(board: Seq<u8>, n: nat, y: int) -> Seq<u8> {
    Seq::new(n, |x: int| board[y * n + x])
}

/// Row `y` of a row-major `n`x`n` board, read from the right edge.
pub open spec fn row_seq_rev(board: Seq<u8>, n: nat, y: int) -> Seq<u8> {
    Seq::new(n, |x: int| board[y * n + (n - 1 - x)])
}

/// Column `x` of a row-major `n`x`n` board, read from the top edge.
pub open spec fn col_seq(board: Seq<u8>, n: nat, x: int) -> Seq<u8> {
    Seq::new(n, |y: int| board[y * n + x])
}

/// Column `x` of a row-major `n`x`n` board, read from the bottom edge.
pub open spec fn col_seq_rev(board: Seq<u8>, n: nat, x: int) -> Seq<u8> {
    Seq::new(n, |y: int| board[(n - 1 - y) * n + x])
}

/// The header derived from a completed `n`x`n` board: `4*n` clues laid out as
/// four bands of `n` - top (per column, viewing down), bottom (per column,
/// viewing up), left (per row, viewing right), right (per row, viewing left).
pub open spec fn header_of(board: Seq<u8>, n: nat) -> Seq<u8> {
    Seq::new(
        4 * n,
        |k: int|
            if k < n {
                visible(col_seq(board, n, k)) as u8
            } else if k < 2 * n {
                visible(col_seq_rev(board, n, k - n)) as u8
            } else if k < 3 * n {
                visible(row_seq(board, n, k - 2 * n)) as u8
            } else {
                visible(row_seq_rev(board, n, k - 3 * n)) as u8
            },
    )
}

/// Counts the cells of `line` visible from its start (index 0), assuming no
/// height exceeds `size`.
pub fn count_viewed(line: &[u8], size: u8) -> (r: u8)
    requires
        line@.len() == size as nat,
        forall|k: int| 0 <= k < line@.len() ==> line@[k] <= size,
    ensures
        r as nat == visible(line@),
{
    let mut max: u8 = 0;
    let mut count: u8 = 0;
    let mut i: usize = 0;
    while i < size as usize
        invariant
            0 <= i <= size,
            line@.len() == size as nat,
            forall|k: int| 0 <= k < line@.len() ==> line@[k] <= size,
            count <= i,
            max <= size,
            visible(line@) == count + visible_from(line@, i as int, max),
        decreases size - i,
    {
        let n = line[i];
        if n > max {
            max = n;
            count = count + 1;
            if max == size {
                proof {
                    lemma_visible_saturated(line@, i + 1, max);
                }
                return count;
            }
        }
        i = i + 1;
    }
    count
}

/// Copies column `x` of the row-major `n`x`n` board into a vector, from the
/// top edge down, or from the bottom edge up when `rev` is set.
pub fn collect_col(board: &[u8], n: usize, x: usize, rev: bool) -> (r: Vec<u8>)
    requires
        board@.len() == n * n,
        x < n,
    ensures
        r@ == if rev {
            col_seq_rev(board@, n as nat, x as int)
        } else {
            col_seq(board@, n as nat, x as int)
        },
{
    let total: usize = board.len();
    proof {
        assert(total == n * n);
    }
    let mut r: Vec<u8> = Vec::new();
    let mut y: usize = 0;
    while y < n
        invariant
            0 <= y <= n,
            board@.len() == n * n,
            n * n <= usize::MAX,
            x < n,
            r@.len() == y,
            forall|i: int|
                0 <= i < y ==> r@[i] == (if rev {
                    col_seq_rev(board@, n as nat, x as int)[i]
                } else {
                    col_seq(board@, n as nat, x as int)[i]
                }),
        decreases n - y,
    {
        let row: usize = if rev {
            n - 1 - y
        } else {
            y
        };
        assert(row * n + x < n * n) by (nonlinear_arith)
            requires
                row < n,
                x < n,
        ;
        r.push(board[row * n + x]);
        y = y + 1;
    }
    if rev {
        assert(r@ =~= col_seq_rev(board@, n as nat, x as int));
    } else {
        assert(r@ =~= col_seq(board@, n as nat, x as int));
    }
    r
}

/// Copies row `y` of the row-major `n`x`n` board into a vector, from the left
/// edge rightward, or from the right edge leftward when `rev` is set.
pub fn collect_row(board: &[u8], n: usize, y: usize, rev: bool) -> (r: Vec<u8>)
    requires
        board@.len() == n * n,
        y < n,
    ensures
        r@ == if rev {
            row_seq_rev(board@, n as nat, y as int)
        } else {
            row_seq(board@, n as nat, y as int)
        },
{
    let total: usize = board.len();
    proof {
        assert(total == n * n);
    }
    let mut r: Vec<u8> = Vec::new();
    let mut x: usize = 0;
    while x < n
        invariant
            0 <= x <= n,
            board@.len() == n * n,
            n * n <= usize::MAX,
            y < n,
            r@.len() == x,
            forall|i: int|
                0 <= i < x ==> r@[i] == (if rev {
                    row_seq_rev(board@, n as nat, y as int)[i]
                } else {
                    row_seq(board@, n as nat, y as int)[i]
                }),
        decreases n - x,
    {
        let col: usize = if rev {
            n - 1 - x
        } else {
            x
        };
        assert(y * n + col < n * n) by (nonlinear_arith)
            requires
                y < n,
                col < n,
        ;
        r.push(board[y * n + col]);
        x = x + 1;
    }
    if rev {
        assert(r@ =~= row_seq_rev(board@, n as nat, y as int));
    } else {
        assert(r@ =~= row_seq(board@, n as nat, y as int));
    }
    r
}

} // verus!

verus! {

/// The tallest height among `mx` and `line[i..j]`.
pub open spec fn prefix_max(line: Seq<u8>, i: int, j: int, mx: u8) -> u8
    decreases j - i when 0 <= i <= j <= line.len()
{
    if i >= j {
        mx
    } else {
        prefix_max(line, i + 1, j, if line[i] > mx {
            line[i]
        } else {
            mx
        })
    }
}

/// The prefix maximum dominates its seed and every covered cell.
pub proof fn lemma_prefix_max_ge(line: Seq<u8>, i: int, j: int, mx: u8)
    requires
        0 <= i <= j <= line.len(),
    ensures
        prefix_max(line, i, j, mx) >= mx,
        forall|t: int| i <= t < j ==> prefix_max(line, i, j, mx) >= line[t],
    decreases j - i,
{
    if i < j {
        lemma_prefix_max_ge(line, i + 1, j, if line[i] > mx {
            line[i]
        } else {
            mx
        });
    }
}

/// The prefix maximum stays within the height bound.
pub proof fn lemma_prefix_max_le(line: Seq<u8>, i: int, j: int, mx: u8, n: u8)
    requires
        0 <= i <= j <= line.len(),
        mx <= n,
        forall|k: int| 0 <= k < line.len() ==> line[k] <= n,
    ensures
        prefix_max(line, i, j, mx) <= n,
    decreases j - i,
{
    if i < j {
        lemma_prefix_max_le(line, i + 1, j, if line[i] > mx {
            line[i]
        } else {
            mx
        }, n);
    }
}

/// No more cells can be visible than remain.
pub proof fn lemma_visible_len(line: Seq<u8>, i: int, mx: u8)
    requires
        0 <= i <= line.len(),
    ensures
        visible_from(line, i, mx) <= line.len() - i,
    decreases line.len() - i,
{
    if i < line.len() {
        lemma_visible_len(line, i + 1, if line[i] > mx {
            line[i]
        } else {
            mx
        });
    }
}

/// Every visible cell raises the running maximum, so at most `n - mx` cells
/// can still become visible when every height is at most `n`.
pub proof fn lemma_visible_cap(line: Seq<u8>, i: int, mx: u8, n: u8)
    requires
        0 <= i <= line.len(),
        mx <= n,
        forall|k: int| 0 <= k < line.len() ==> line[k] <= n,
    ensures
        visible_from(line, i, mx) <= n - mx,
    decreases line.len() - i,
{
    if i < line.len() {
        if line[i] > mx {
            lemma_visible_cap(line, i + 1, line[i], n);
        } else {
            lemma_visible_cap(line, i + 1, mx, n);
        }
    }
}

/// A cell taller than the running maximum guarantees one more visible cell.
pub proof fn lemma_visible_ge_one(line: Seq<u8>, i: int, mx: u8, k: int)
    requires
        0 <= i <= k < line.len(),
        line[k] > mx,
    ensures
        visible_from(line, i, mx) >= 1,
    decreases k - i,
{
    if i < k {
        if line[i] > mx {
        } else {
            lemma_visible_ge_one(line, i + 1, mx, k);
        }
    }
}

/// A cell not above the running maximum can never be visible, so the count
/// stays below the number of remaining cells.
pub proof fn lemma_visible_dead(line: Seq<u8>, i: int, mx: u8, k: int)
    requires
        0 <= i <= k < line.len(),
        line[k] <= mx,
    ensures
        visible_from(line, i, mx) <= line.len() - i - 1,
    decreases k - i,
{
    if i == k {
        lemma_visible_len(line, i + 1, mx);
    } else {
        if line[i] > mx {
            lemma_visible_dead(line, i + 1, line[i], k);
        } else {
            lemma_visible_dead(line, i + 1, mx, k);
        }
    }
}

/// Splitting a line: the cells before `j` contribute at most `j - i`, and
/// the rest is counted against the prefix maximum.
pub proof fn lemma_visible_split(line: Seq<u8>, i: int, j: int, mx: u8)
    requires
        0 <= i <= j <= line.len(),
    ensures
        visible_from(line, i, mx) <= (j - i) + visible_from(line, j, prefix_max(line, i, j, mx)),
    decreases j - i,
{
    if i < j {
        if line[i] > mx {
            lemma_visible_split(line, i + 1, j, line[i]);
        } else {
            lemma_visible_split(line, i + 1, j, mx);
        }
    }
}

} // verus!
