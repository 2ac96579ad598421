//! Laws of the puzzle that tie the library's pieces together.

use vstd::prelude::*;

use vstd::multiset::Multiset;

use crate::domain::{clue_allows, header_allows};
use crate::visibility::{header_of, visible, visible_from};

verus! {

/// The heights `1, 2, ..., n` in order.
pub open spec fn heights(n: nat) -> Seq<u8> {
    Seq::new(n, |i: int| (i + 1) as u8)
}

/// A multiset included in another of the same total size equals it.
pub proof fn lemma_multiset_le_equal_len<V>(a: Multiset<V>, b: Multiset<V>)
    requires
        a.subset_of(b),
        a.len() == b.len(),
    ensures
        a =~= b,
{
    broadcast use vstd::multiset::group_multiset_axioms;
    broadcast use vstd::multiset::lemma_multiset_empty_len;

    let c = b.sub(a);
    assert(b =~= a.add(c));
    assert(a.add(c).len() == a.len() + c.len());
    assert(c.len() == 0);
    assert(c =~= Multiset::empty());
}

/// Law: a complete line without duplicate heights, all in `1..=n`, holds
/// each height exactly once - its multiset is exactly `{1, ..., n}`.  This
/// applies to every row and column of a completed board.
pub proof fn lemma_line_is_permutation(s: Seq<u8>, n: nat)
    requires
        n <= 255,
        s.len() == n,
        forall|k: int| 0 <= k < s.len() ==> 1 <= #[trigger] s[k] <= n,
        forall|i: int, j: int| 0 <= i < j < s.len() ==> s[i] != s[j],
    ensures
        s.to_multiset() =~= heights(n).to_multiset(),
{
    broadcast use vstd::seq_lib::group_to_multiset_ensures;

    let t = heights(n);
    assert(s.no_duplicates());
    assert(t.no_duplicates());
    s.lemma_multiset_has_no_duplicates();
    t.lemma_multiset_has_no_duplicates();
    assert forall|v: u8| s.to_multiset().count(v) <= t.to_multiset().count(v) by {
        if s.to_multiset().count(v) > 0 {
            assert(s.contains(v));
            let k = choose|k: int| 0 <= k < s.len() && s[k] == v;
            assert(1 <= v <= n);
            assert(t[v - 1] == v);
            assert(t.contains(v));
            assert(t.to_multiset().count(v) == 1);
            assert(s.to_multiset().count(v) == 1);
        }
    }
    assert(s.to_multiset().len() == s.len());
    assert(t.to_multiset().len() == t.len());
    lemma_multiset_le_equal_len(s.to_multiset(), t.to_multiset());
}

/// Law: a clue of 1 forces the cell next to its edge to the tallest height,
/// and a clue of `n` forces its whole line to ascend from the edge.  Paired
/// with the header pruning, whose result keeps exactly the heights that
/// [`header_allows`] admits, this pins those cells before any search.
pub proof fn lemma_clue_extremes(h: Seq<u8>, n: u8, x: int, y: int, v: u8)
    requires
        n >= 1,
        h.len() == 4 * n,
        0 <= x < n,
        0 <= y < n,
        header_allows(h, n as nat, x, y, v),
    ensures
        h[x] == 1 && y == 0 ==> v == n,
        h[x] == n ==> v == y + 1,
        h[n + x] == 1 && y == n - 1 ==> v == n,
        h[n + x] == n ==> v == n - y,
        h[2 * n + y] == 1 && x == 0 ==> v == n,
        h[2 * n + y] == n ==> v == x + 1,
        h[3 * n + y] == 1 && x == n - 1 ==> v == n,
        h[3 * n + y] == n ==> v == n - x,
{
    assert(clue_allows(h[x], y, n as nat, v));
    assert(clue_allows(h[n + x], n - 1 - y, n as nat, v));
    assert(clue_allows(h[2 * n + y], x, n as nat, v));
    assert(clue_allows(h[3 * n + y], n - 1 - x, n as nat, v));
}

} // verus!

verus! {

/// On a strictly ascending duplicate-free line of heights `1..=n`, position
/// `i` holds exactly `i + 1`.
proof fn lemma_ascending_exact(line: Seq<u8>, n: nat, i: int)
    requires
        1 <= n,
        line.len() == n,
        forall|k: int| 0 <= k < line.len() ==> 1 <= #[trigger] line[k] <= n,
        forall|k1: int, k2: int| 0 <= k1 < k2 < line.len() ==> line[k1] < line[k2],
        0 <= i < n,
    ensures
        line[i] == i + 1,
{
    lemma_ascending_low(line, n, i);
    lemma_ascending_high(line, n, i);
}

/// Ascending from at least 1: position `i` holds at least `i + 1`.
proof fn lemma_ascending_low(line: Seq<u8>, n: nat, i: int)
    requires
        1 <= n,
        line.len() == n,
        forall|k: int| 0 <= k < line.len() ==> 1 <= #[trigger] line[k] <= n,
        forall|k1: int, k2: int| 0 <= k1 < k2 < line.len() ==> line[k1] < line[k2],
        0 <= i < n,
    ensures
        line[i] >= i + 1,
    decreases i,
{
    if i > 0 {
        lemma_ascending_low(line, n, i - 1);
    }
}

/// Ascending to at most `n`: position `i` holds at most `i + 1`.
proof fn lemma_ascending_high(line: Seq<u8>, n: nat, i: int)
    requires
        1 <= n,
        line.len() == n,
        forall|k: int| 0 <= k < line.len() ==> 1 <= #[trigger] line[k] <= n,
        forall|k1: int, k2: int| 0 <= k1 < k2 < line.len() ==> line[k1] < line[k2],
        0 <= i < n,
    ensures
        line[i] <= i + 1,
    decreases n - i,
{
    if i < n - 1 {
        lemma_ascending_high(line, n, i + 1);
    }
}

/// Law: the pruning rule of a clue is sound.  On a complete duplicate-free
/// line of heights `1..=n` whose visible count is the clue, every cell obeys
/// [`clue_allows`] - so header pruning never removes the height a true
/// solution puts there.
pub proof fn lemma_clue_sound(line: Seq<u8>, n: nat, i: int)
    requires
        1 <= n <= 255,
        line.len() == n,
        forall|k: int| 0 <= k < line.len() ==> 1 <= #[trigger] line[k] <= n,
        forall|k1: int, k2: int| 0 <= k1 < k2 < line.len() ==> line[k1] != line[k2],
        0 <= i < n,
    ensures
        clue_allows(visible(line) as u8, i, n, line[i]),
{
    let c = visible(line);
    crate::visibility::lemma_visible_len(line, 0, 0);
    crate::visibility::lemma_visible_ge_one(line, 0, 0, 0);
    assert(1 <= c <= n);
    let cb = c as u8;

    if cb == 1 {
        // Only the nearest cell is visible: it must be the tallest height,
        // and the tallest height can stand nowhere else.
        assert(visible_from(line, 0, 0) == 1 + visible_from(line, 1, line[0]));
        if i == 0 {
            if line[0] != n {
                lemma_line_is_permutation(line, n);
                broadcast use vstd::seq_lib::group_to_multiset_ensures;

                assert(heights(n)[n - 1] == n);
                assert(heights(n).contains(n as u8));
                assert(heights(n).to_multiset().count(n as u8) > 0);
                assert(line.to_multiset().count(n as u8) > 0);
                assert(line.contains(n as u8));
                let k = choose|k: int| 0 <= k < line.len() && line[k] == n;
                assert(k != 0);
                crate::visibility::lemma_visible_ge_one(line, 1, line[0], k);
                assert(false);
            }
        } else {
            if line[i] == n {
                assert(line[0] != n);
                crate::visibility::lemma_visible_ge_one(line, 1, line[0], i);
                assert(false);
            }
        }
    } else if cb == n as u8 {
        // Every cell is visible: the line ascends, so position i holds i+1.
        assert forall|k1: int, k2: int|
            0 <= k1 < k2 < line.len() implies line[k1] < line[k2] by {
            if line[k1] > line[k2] {
                crate::visibility::lemma_visible_split(line, 0, k1 + 1, 0);
                crate::visibility::lemma_prefix_max_ge(line, 0, k1 + 1, 0);
                crate::visibility::lemma_visible_dead(
                    line,
                    k1 + 1,
                    crate::visibility::prefix_max(line, 0, k1 + 1, 0),
                    k2,
                );
                assert(false);
            }
        }
        lemma_ascending_exact(line, n, i);
    } else {
        // A cell of height n - c + 2 + i or more at position i would leave
        // too few taller heights to reach c visible cells.
        let v = line[i];
        if v as int >= n - cb + 2 + i {
            crate::visibility::lemma_visible_split(line, 0, i + 1, 0);
            crate::visibility::lemma_prefix_max_ge(line, 0, i + 1, 0);
            let m = crate::visibility::prefix_max(line, 0, i + 1, 0);
            assert(m >= v);
            crate::visibility::lemma_prefix_max_le(line, 0, i + 1, 0, n as u8);
            assert(forall|k: int| 0 <= k < line.len() ==> #[trigger] line[k] <= n as u8);
            crate::visibility::lemma_visible_cap(line, i + 1, m, n as u8);
            assert(c <= (i + 1) + (n - m));
            assert(false);
        }
    }
}

/// Law: header pruning is sound.  A duplicate-free completed board satisfies
/// [`header_allows`] for its own derived header at every cell: pruning by
/// that header removes no height the board uses.
pub proof fn lemma_solution_allowed(b: Seq<u8>, n: nat, x: int, y: int)
    requires
        1 <= n <= 255,
        b.len() == n * n,
        forall|k: int| 0 <= k < b.len() ==> 1 <= #[trigger] b[k] <= n,
        crate::check::rows_distinct(b, n),
        crate::check::cols_distinct(b, n),
        0 <= x < n,
        0 <= y < n,
    ensures
        header_allows(header_of(b, n), n, x, y, b[x + y * n]),
{
    let h = header_of(b, n);

    let top = crate::visibility::col_seq(b, n, x);
    assert forall|k: int| 0 <= k < top.len() implies 1 <= #[trigger] top[k] <= n by {
        crate::visibility::lemma_index_bound(n, k, x);
    }
    assert forall|k1: int, k2: int|
        0 <= k1 < k2 < top.len() implies top[k1] != top[k2] by {
        crate::visibility::lemma_index_bound(n, k1, x);
        crate::visibility::lemma_index_bound(n, k2, x);
        assert(b[x + k1 * n] != b[x + k2 * n]);
    }
    lemma_clue_sound(top, n, y);
    assert(h[x] == visible(top) as u8);
    assert(top[y] == b[x + y * n]) by {
        crate::visibility::lemma_index_bound(n, y, x);
    }

    let bot = crate::visibility::col_seq_rev(b, n, x);
    assert forall|k: int| 0 <= k < bot.len() implies 1 <= #[trigger] bot[k] <= n by {
        crate::visibility::lemma_index_bound(n, n - 1 - k, x);
    }
    assert forall|k1: int, k2: int|
        0 <= k1 < k2 < bot.len() implies bot[k1] != bot[k2] by {
        crate::visibility::lemma_index_bound(n, n - 1 - k1, x);
        crate::visibility::lemma_index_bound(n, n - 1 - k2, x);
        assert(b[x + (n - 1 - k2) * n] != b[x + (n - 1 - k1) * n]);
    }
    lemma_clue_sound(bot, n, n - 1 - y);
    assert(h[n + x] == visible(bot) as u8);
    assert(bot[n - 1 - y] == b[x + y * n]) by {
        crate::visibility::lemma_index_bound(n, y, x);
    }

    let lft = crate::visibility::row_seq(b, n, y);
    assert forall|k: int| 0 <= k < lft.len() implies 1 <= #[trigger] lft[k] <= n by {
        crate::visibility::lemma_index_bound(n, y, k);
    }
    assert forall|k1: int, k2: int|
        0 <= k1 < k2 < lft.len() implies lft[k1] != lft[k2] by {
        crate::visibility::lemma_index_bound(n, y, k1);
        crate::visibility::lemma_index_bound(n, y, k2);
        assert(b[k1 + y * n] != b[k2 + y * n]);
    }
    lemma_clue_sound(lft, n, x);
    assert(h[2 * n + y] == visible(lft) as u8);
    assert(lft[x] == b[x + y * n]) by {
        crate::visibility::lemma_index_bound(n, y, x);
    }

    let rgt = crate::visibility::row_seq_rev(b, n, y);
    assert forall|k: int| 0 <= k < rgt.len() implies 1 <= #[trigger] rgt[k] <= n by {
        crate::visibility::lemma_index_bound(n, y, n - 1 - k);
    }
    assert forall|k1: int, k2: int|
        0 <= k1 < k2 < rgt.len() implies rgt[k1] != rgt[k2] by {
        crate::visibility::lemma_index_bound(n, y, n - 1 - k1);
        crate::visibility::lemma_index_bound(n, y, n - 1 - k2);
        assert(b[(n - 1 - k2) + y * n] != b[(n - 1 - k1) + y * n]);
    }
    lemma_clue_sound(rgt, n, n - 1 - x);
    assert(h[3 * n + y] == visible(rgt) as u8);
    assert(rgt[n - 1 - x] == b[x + y * n]) by {
        crate::visibility::lemma_index_bound(n, y, x);
    }
}

} // verus!
