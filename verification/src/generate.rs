//! Building random completed boards and deriving headers from them.

use vstd::prelude::*;

use crate::visibility::{collect_col, collect_row, count_viewed, header_of};

verus! {

/// Derives the `4*size` clue header of a completed board: for each edge of
/// each row and column, the number of cells visible from that edge.
pub fn solution_to_header(solution: &[u8], size: u8) -> (r: Vec<u8>)
    requires
        solution@.len() == (size as nat) * (size as nat),
        forall|k: int| 0 <= k < solution@.len() ==> solution@[k] <= size,
    ensures
        r@ == header_of(solution@, size as nat),
{
    let s = size as usize;
    let mut r: Vec<u8> = Vec::new();

    let mut x: usize = 0;
    while x < s
        invariant
            0 <= x <= s,
            s == size as usize,
            solution@.len() == (size as nat) * (size as nat),
            forall|k: int| 0 <= k < solution@.len() ==> solution@[k] <= size,
            r@.len() == x,
            forall|i: int| 0 <= i < x ==> r@[i] == header_of(solution@, size as nat)[i],
        decreases s - x,
    {
        let line = collect_col(solution, s, x, false);
        proof {
            assert forall|k: int| 0 <= k < line@.len() implies line@[k] <= size by {
                crate::visibility::lemma_index_bound(s as nat, k, x as int);
            }
        }
        r.push(count_viewed(line.as_slice(), size));
        x = x + 1;
    }

    let mut x: usize = 0;
    while x < s
        invariant
            0 <= x <= s,
            s == size as usize,
            solution@.len() == (size as nat) * (size as nat),
            forall|k: int| 0 <= k < solution@.len() ==> solution@[k] <= size,
            r@.len() == s + x,
            forall|i: int| 0 <= i < s + x ==> r@[i] == header_of(solution@, size as nat)[i],
        decreases s - x,
    {
        let line = collect_col(solution, s, x, true);
        proof {
            assert forall|k: int| 0 <= k < line@.len() implies line@[k] <= size by {
                crate::visibility::lemma_index_bound(s as nat, s - 1 - k, x as int);
            }
        }
        r.push(count_viewed(line.as_slice(), size));
        x = x + 1;
    }

    let mut y: usize = 0;
    while y < s
        invariant
            0 <= y <= s,
            s == size as usize,
            solution@.len() == (size as nat) * (size as nat),
            forall|k: int| 0 <= k < solution@.len() ==> solution@[k] <= size,
            r@.len() == 2 * s + y,
            forall|i: int| 0 <= i < 2 * s + y ==> r@[i] == header_of(solution@, size as nat)[i],
        decreases s - y,
    {
        let line = collect_row(solution, s, y, false);
        proof {
            assert forall|k: int| 0 <= k < line@.len() implies line@[k] <= size by {
                crate::visibility::lemma_index_bound(s as nat, y as int, k);
            }
        }
        r.push(count_viewed(line.as_slice(), size));
        y = y + 1;
    }

    let mut y: usize = 0;
    while y < s
        invariant
            0 <= y <= s,
            s == size as usize,
            solution@.len() == (size as nat) * (size as nat),
            forall|k: int| 0 <= k < solution@.len() ==> solution@[k] <= size,
            r@.len() == 3 * s + y,
            forall|i: int| 0 <= i < 3 * s + y ==> r@[i] == header_of(solution@, size as nat)[i],
        decreases s - y,
    {
        let line = collect_row(solution, s, y, true);
        proof {
            assert forall|k: int| 0 <= k < line@.len() implies line@[k] <= size by {
                crate::visibility::lemma_index_bound(s as nat, y as int, s - 1 - k);
            }
        }
        r.push(count_viewed(line.as_slice(), size));
        y = y + 1;
    }

    assert(r@ =~= header_of(solution@, size as nat));
    r
}

} // verus!

verus! {

/// Declares rand_xoshiro's pseudo-random generator so that it can cross the
/// generator's signatures; the library never looks inside it.
#[verifier::external_type_specification]
#[verifier::external_body]
pub struct ExXoroshiro(rand_xoshiro::Xoroshiro128StarStar);

/// Relies on rand's `Rng::gen_range` over a non-empty `usize` range: the
/// sample lies in `lo..hi`.  Nothing more is assumed of a random value.
#[verifier::external_body]
fn pick_in_range(rng: &mut rand_xoshiro::Xoroshiro128StarStar, lo: usize, hi: usize) -> (r: usize)
    requires
        lo < hi,
    ensures
        lo <= r < hi,
{
    rand::Rng::gen_range(rng, lo..hi)
}

/// Height `c` may be placed at flat cell `idx`: it is in range and appears
/// neither earlier in its row nor earlier in its column.
pub open spec fn ok_candidate(sol: Seq<u8>, s: int, idx: int, c: u8) -> bool {
    let x = idx % s;
    let y = idx / s;
    &&& 1 <= c <= s
    &&& forall|i: int| 0 <= i < x ==> #[trigger] sol[i + y * s] != c
    &&& forall|j: int| 0 <= j < y ==> #[trigger] sol[x + j * s] != c
}

/// One past the last stack position of candidate slice `L`.
pub open spec fn slice_end(slices: Seq<usize>, L: int, stack_len: int) -> int {
    if L == slices.len() - 1 {
        stack_len
    } else {
        slices[L + 1] as int
    }
}

/// Every stacked candidate is still placeable at the level its slice
/// belongs to.
pub open spec fn slices_ok(sol: Seq<u8>, s: int, stack: Seq<u8>, slices: Seq<usize>) -> bool {
    forall|L: int, p: int|
        #![trigger stack[p], slices[L]]
        0 <= L < slices.len() && slices[L] <= p < slice_end(slices, L, stack.len() as int)
            ==> ok_candidate(sol, s, L, stack[p])
}

/// The candidate stack is partitioned into slices in position order.
pub open spec fn slices_sorted(slices: Seq<usize>, stack_len: int) -> bool {
    &&& forall|L: int| 0 <= L < slices.len() - 1 ==> #[trigger] slices[L] <= slices[L + 1]
    &&& slices.len() > 0 ==> slices.last() <= stack_len
}

/// Weight of the candidate slices: remaining choices per level, scaled so
/// that deeper levels weigh less.
pub open spec fn gen_phi(slices: Seq<usize>, end: int, b: int, total: nat) -> int
    decreases slices.len(),
{
    if slices.len() == 0 {
        0
    } else {
        gen_phi(slices.drop_last(), slices.last() as int, b, total) + (end - slices.last())
            * vstd::arithmetic::power::pow(b, (total - (slices.len() - 1)) as nat)
    }
}

/// The slice weight is never negative.
pub proof fn lemma_gen_phi_nonneg(slices: Seq<usize>, end: int, b: int, total: nat)
    requires
        b >= 1,
        slices_sorted(slices, end),
    ensures
        gen_phi(slices, end, b, total) >= 0,
    decreases slices.len(),
{
    if slices.len() > 0 {
        assert(slices_sorted(slices.drop_last(), slices.last() as int));
        lemma_gen_phi_nonneg(slices.drop_last(), slices.last() as int, b, total);
        vstd::arithmetic::power::lemma_pow_positive(b, (total - (slices.len() - 1)) as nat);
        assert((end - slices.last()) * vstd::arithmetic::power::pow(
            b,
            (total - (slices.len() - 1)) as nat,
        ) >= 0) by (nonlinear_arith)
            requires
                end - slices.last() >= 0,
                vstd::arithmetic::power::pow(b, (total - (slices.len() - 1)) as nat) > 0,
        ;
    }
}

} // verus!

verus! {

/// In a sorted slice partition every slice start lies inside the stack.
pub proof fn lemma_slice_bound(slices: Seq<usize>, end: int, m: int)
    requires
        slices_sorted(slices, end),
        0 <= m < slices.len(),
    ensures
        slices[m] <= end,
        slice_end(slices, m, end) <= end,
        slices[m] <= slice_end(slices, m, end),
    decreases slices.len() - m,
{
    if m < slices.len() - 1 {
        lemma_slice_bound(slices, end, m + 1);
    }
}

/// Slice starts grow with the level.
pub proof fn lemma_slices_mono(slices: Seq<usize>, end: int, a: int, b: int)
    requires
        slices_sorted(slices, end),
        0 <= a <= b < slices.len(),
    ensures
        slices[a] <= slices[b],
    decreases b - a,
{
    if a < b {
        lemma_slices_mono(slices, end, a + 1, b);
    }
}

/// Placeability of a height at a cell depends only on the cells before it.
pub proof fn lemma_ok_candidate_prefix(a: Seq<u8>, b2: Seq<u8>, s: int, idx: int, c: u8)
    requires
        1 <= s,
        0 <= idx,
        forall|q: int| 0 <= q < idx ==> a[q] == b2[q],
        ok_candidate(a, s, idx, c),
    ensures
        ok_candidate(b2, s, idx, c),
{
    vstd::arithmetic::div_mod::lemma_fundamental_div_mod(idx, s);
    let x = idx % s;
    let y = idx / s;
    assert(0 <= y && idx == y * s + x) by (nonlinear_arith)
        requires
            idx >= 0,
            s >= 1,
            y == idx / s,
            x == idx % s,
            idx == s * y + x,
    ;
    assert forall|i: int| 0 <= i < x implies #[trigger] b2[i + y * s] != c by {
        assert(i + y * s < idx);
        assert(a[i + y * s] != c);
    }
    assert forall|j: int| 0 <= j < y implies #[trigger] b2[x + j * s] != c by {
        assert(x + j * s < y * s + x) by (nonlinear_arith)
            requires
                0 <= j < y,
                s >= 1,
        ;
        assert(x + j * s < idx);
        assert(a[x + j * s] != c);
    }
}

/// Whether height `c` already appears in row `y` left of column `x`.
fn row_contains(solution: &Vec<u8>, s: usize, x: usize, y: usize, c: u8) -> (r: bool)
    requires
        solution@.len() == s * s,
        x < s,
        y < s,
        1 <= s <= 255,
    ensures
        r == !(forall|i: int| 0 <= i < x ==> #[trigger] solution@[i + y * s] != c),
{
    let mut i: usize = 0;
    while i < x
        invariant
            0 <= i <= x < s,
            y < s,
            s <= 255,
            solution@.len() == s * s,
            forall|i2: int| 0 <= i2 < i ==> #[trigger] solution@[i2 + y * s] != c,
        decreases x - i,
    {
        proof {
            crate::visibility::lemma_index_bound(s as nat, y as int, i as int);
            assert(s * s <= 65025) by (nonlinear_arith)
                requires
                    s <= 255,
            ;
        }
        if solution[y * s + i] == c {
            proof {
                assert(solution@[i as int + (y as int) * (s as int)] == c);
            }
            return true;
        }
        i = i + 1;
    }
    false
}

/// Whether height `c` already appears in column `x` above row `y`.
fn col_contains(solution: &Vec<u8>, s: usize, x: usize, y: usize, c: u8) -> (r: bool)
    requires
        solution@.len() == s * s,
        x < s,
        y < s,
        1 <= s <= 255,
    ensures
        r == !(forall|j: int| 0 <= j < y ==> #[trigger] solution@[x + j * s] != c),
{
    let mut j: usize = 0;
    while j < y
        invariant
            0 <= j <= y < s,
            x < s,
            s <= 255,
            solution@.len() == s * s,
            forall|j2: int| 0 <= j2 < j ==> #[trigger] solution@[x + j2 * s] != c,
        decreases y - j,
    {
        proof {
            crate::visibility::lemma_index_bound(s as nat, j as int, x as int);
            assert(s * s <= 65025) by (nonlinear_arith)
                requires
                    s <= 255,
            ;
        }
        if solution[j * s + x] == c {
            proof {
                assert(solution@[x as int + (j as int) * (s as int)] == c);
            }
            return true;
        }
        j = j + 1;
    }
    false
}

/// Generates a random completed board: each cell in turn takes a uniformly
/// chosen height not yet used in its row or column, backtracking when no
/// height remains.
///
/// `None` is returned when the interrupt flag was raised, or in the
/// impossible event that the search exhausts every choice.
#[verifier::loop_isolation(false)]
#[verifier::rlimit(100)]
pub fn generate_solution(
    rng: &mut rand_xoshiro::Xoroshiro128StarStar,
    size: u8,
    stop: &core::sync::atomic::AtomicBool,
) -> (r: Option<Vec<u8>>)
    requires
        1 <= size,
    ensures
        match r {
            Some(b) => {
                &&& b@.len() == (size as int) * (size as int)
                &&& forall|k: int| 0 <= k < b@.len() ==> 1 <= #[trigger] b@[k] <= size
                &&& crate::check::rows_distinct(b@, size as nat)
                &&& crate::check::cols_distinct(b@, size as nat)
            },
            None => true,
        },
{
    let s = size as usize;
    let ghost si = s as int;
    let ghost b_base = si + 2;
    proof {
        assert(s * s <= 65025) by (nonlinear_arith)
            requires
                s <= 255,
        ;
    }
    let total = s * s;

    let mut solution: Vec<u8> = Vec::new();
    let mut t: usize = 0;
    while t < total
        invariant
            0 <= t <= total,
            solution@.len() == t,
            forall|k: int| 0 <= k < t ==> #[trigger] solution@[k] == 0,
        decreases total - t,
    {
        solution.push(0);
        t = t + 1;
    }

    let mut stack: Vec<u8> = Vec::new();
    let mut stack_slices: Vec<usize> = Vec::new();
    let mut index: usize = 0;

    while index != total
        invariant
            1 <= s <= 255,
            s == size as usize,
            si == s as int,
            b_base == si + 2,
            total == s * s,
            total <= 65025,
            0 <= index <= total,
            solution@.len() == total,
            forall|k: int| 0 <= k < index ==> 1 <= #[trigger] solution@[k] <= size,
            forall|k: int| index <= k < total ==> #[trigger] solution@[k] == 0,
            forall|k: int|
                0 <= k < index ==> ok_candidate(solution@, si, k, #[trigger] solution@[k]),
            stack_slices@.len() == index,
            slices_sorted(stack_slices@, stack@.len() as int),
            slices_ok(solution@, si, stack@, stack_slices@),
        decreases gen_phi(stack_slices@, stack@.len() as int, b_base, total as nat) + (si + 1)
            * vstd::arithmetic::power::pow(b_base, (total - index) as nat),
    {
        proof {
            lemma_gen_phi_nonneg(stack_slices@, stack@.len() as int, b_base, total as nat);
            vstd::arithmetic::power::lemma_pow_positive(b_base, (total - index) as nat);
            assert((si + 1) * vstd::arithmetic::power::pow(b_base, (total - index) as nat) >= 0)
                by (nonlinear_arith)
                requires
                    si + 1 >= 0,
                    vstd::arithmetic::power::pow(b_base, (total - index) as nat) > 0,
            ;
        }
        if crate::sigint::occured(stop) {
            return None;
        }
        let ghost phi0 = gen_phi(stack_slices@, stack@.len() as int, b_base, total as nat);
        let ghost idx0 = index as int;
        let ghost slices0 = stack_slices@;
        let ghost stack0 = stack@;

        let x = index % s;
        let y = index / s;
        proof {
            crate::domain::lemma_flat_coords(si, index as int);
        }

        stack_slices.push(stack.len());

        let mut c: usize = 1;
        while c <= s
            invariant
                1 <= c <= s + 1,
                1 <= s <= 255,
                s == size as usize,
                si == s as int,
                total == s * s,
                total <= 65025,
                index < total,
                x == index % s,
                y == index / s,
                x < s,
                y < s,
                solution@.len() == total,
                stack_slices@ == slices0.push(stack0.len() as usize),
                stack0.len() <= stack@.len(),
                stack@.len() - stack0.len() <= c - 1,
                forall|p: int| 0 <= p < stack0.len() ==> #[trigger] stack@[p] == stack0[p],
                forall|p: int|
                    stack0.len() <= p < stack@.len() ==> ok_candidate(
                        solution@,
                        si,
                        index as int,
                        #[trigger] stack@[p],
                    ),
            decreases s + 1 - c,
        {
            let cv = c as u8;
            if !row_contains(&solution, s, x, y, cv) && !col_contains(&solution, s, x, y, cv) {
                stack.push(cv);
            }
            c = c + 1;
        }

        proof {
            // Weight of the fresh slice.
            assert(stack_slices@.drop_last() =~= slices0);
            assert(gen_phi(stack_slices@, stack@.len() as int, b_base, total as nat) == phi0 + (
            stack@.len() - stack0.len()) * vstd::arithmetic::power::pow(
                b_base,
                (total - idx0) as nat,
            ));
            // Slices are still sorted and their candidates placeable.
            assert(slices_sorted(stack_slices@, stack@.len() as int));
            assert forall|L: int, p: int|
                #![trigger stack@[p], stack_slices@[L]]
                0 <= L < stack_slices@.len() && stack_slices@[L] <= p < slice_end(
                    stack_slices@,
                    L,
                    stack@.len() as int,
                ) implies ok_candidate(solution@, si, L, stack@[p]) by {
                assert(stack_slices@[L] == (if L < slices0.len() {
                    slices0[L]
                } else {
                    stack0.len() as usize
                }));
                if L < slices0.len() {
                    if L < slices0.len() - 1 {
                        assert(stack_slices@[L + 1] == slices0[L + 1]);
                        assert(slice_end(stack_slices@, L, stack@.len() as int) == slice_end(
                            slices0,
                            L,
                            stack0.len() as int,
                        ));
                        lemma_slice_bound(slices0, stack0.len() as int, L + 1);
                    } else {
                        assert(stack_slices@[L + 1] == stack0.len());
                        assert(slice_end(stack_slices@, L, stack@.len() as int)
                            == stack0.len() as int);
                        assert(slice_end(slices0, L, stack0.len() as int)
                            == stack0.len() as int);
                    }
                    assert(p < stack0.len());
                    assert(slices0[L] <= p < slice_end(slices0, L, stack0.len() as int));
                    assert(ok_candidate(solution@, si, L, stack0[p]));
                    assert(stack@[p] == stack0[p]);
                } else {
                    assert(L == slices0.len());
                    assert(L == idx0);
                    assert(stack0.len() <= p < stack@.len());
                    assert(ok_candidate(solution@, si, idx0, stack@[p]));
                }
            }
        }

        let ghost phi1 = gen_phi(stack_slices@, stack@.len() as int, b_base, total as nat);
        let ghost rem_new = stack@.len() - stack0.len();

        while stack.len() == stack_slices[stack_slices.len() - 1]
            invariant
                1 <= s <= 255,
                si == s as int,
                total == s * s,
                total <= 65025,
                0 <= index < total,
                solution@.len() == total,
                stack_slices@.len() == index + 1,
                slices_sorted(stack_slices@, stack@.len() as int),
                slices_ok(solution@, si, stack@, stack_slices@),
                forall|k: int| 0 <= k < index ==> 1 <= #[trigger] solution@[k] <= size,
                forall|k: int| index <= k < total ==> #[trigger] solution@[k] == 0,
                forall|k: int|
                    0 <= k < index ==> ok_candidate(solution@, si, k, #[trigger] solution@[k]),
                gen_phi(stack_slices@, stack@.len() as int, b_base, total as nat) == phi1,
            decreases stack_slices@.len(),
        {
            if index == 0 {
                // every choice everywhere is exhausted
                return None;
            }
            let ghost slices_b = stack_slices@;
            let ghost sol_b = solution@;
            index = index - 1;
            solution[index] = 0;
            stack_slices.pop();
            proof {
                assert(stack_slices@ =~= slices_b.drop_last());
                assert((stack@.len() - slices_b.last()) * vstd::arithmetic::power::pow(
                    b_base,
                    (total - (slices_b.len() - 1)) as nat,
                ) == 0) by (nonlinear_arith)
                    requires
                        stack@.len() - slices_b.last() == 0,
                ;
                assert(gen_phi(stack_slices@, stack@.len() as int, b_base, total as nat) == phi1);
                assert forall|k: int|
                    0 <= k < index implies ok_candidate(
                    solution@,
                    si,
                    k,
                    #[trigger] solution@[k],
                ) by {
                    lemma_ok_candidate_prefix(sol_b, solution@, si, k, sol_b[k]);
                }
                assert forall|L: int, p: int|
                    #![trigger stack@[p], stack_slices@[L]]
                    0 <= L < stack_slices@.len() && stack_slices@[L] <= p < slice_end(
                        stack_slices@,
                        L,
                        stack@.len() as int,
                    ) implies ok_candidate(solution@, si, L, stack@[p]) by {
                    if L < stack_slices@.len() - 1 {
                        assert(slice_end(slices_b, L, stack@.len() as int) == slice_end(
                            stack_slices@,
                            L,
                            stack@.len() as int,
                        ));
                    } else {
                        assert(slice_end(slices_b, L, stack@.len() as int) == slices_b[L + 1]);
                        assert(slices_b[L + 1] == stack@.len());
                    }
                    assert(ok_candidate(sol_b, si, L, stack@[p]));
                    lemma_ok_candidate_prefix(sol_b, solution@, si, L, stack@[p]);
                }
            }
        }

        let top = stack_slices[stack_slices.len() - 1];
        let ghost t_level = stack_slices@.len() - 1;
        let choosen = pick_in_range(rng, top, stack.len());
        let ghost stack_b = stack@;
        let ghost stack_b_slices = stack_slices@;
        let v = stack.swap_remove(choosen);
        proof {
            assert(ok_candidate(solution@, si, t_level, stack_b[choosen as int]));
        }
        let ghost sol_b = solution@;
        solution[index] = v;
        proof {
            // The filled prefix stays a partial Latin square.
            assert(t_level == index as int);
            assert forall|k: int|
                0 <= k < index + 1 implies ok_candidate(solution@, si, k, #[trigger] solution@[k])
            by {
                if k < index {
                    lemma_ok_candidate_prefix(sol_b, solution@, si, k, sol_b[k]);
                } else {
                    lemma_ok_candidate_prefix(sol_b, solution@, si, k, v);
                }
            }
            // Remaining candidates are still placeable.
            assert forall|L: int, p: int|
                #![trigger stack@[p], stack_slices@[L]]
                0 <= L < stack_slices@.len() && stack_slices@[L] <= p < slice_end(
                    stack_slices@,
                    L,
                    stack@.len() as int,
                ) implies ok_candidate(solution@, si, L, stack@[p]) by {
                lemma_slice_bound(stack_slices@, stack@.len() as int, L);
                assert(p < stack@.len());
                if L < stack_slices@.len() - 1 {
                    lemma_slice_bound(stack_b_slices, stack_b.len() as int, L);
                    assert(slice_end(stack_b_slices, L, stack_b.len() as int) == slice_end(
                        stack_slices@,
                        L,
                        stack@.len() as int,
                    ));
                }
                if p < choosen || p > choosen {
                    assert(stack@[p] == stack_b[p]);
                    assert(ok_candidate(sol_b, si, L, stack_b[p]));
                } else {
                    // Only the top slice reaches the chosen position.
                    if L < t_level {
                        lemma_slices_mono(stack_b_slices, stack_b.len() as int, L + 1, t_level);
                        assert(stack_b_slices[t_level] == top);
                        assert(false);
                    }
                    assert(L == t_level);
                    assert(stack_b_slices[L] <= stack_b.len() - 1 < stack_b.len());
                    assert(stack@[p] == stack_b[stack_b.len() - 1]);
                    assert(ok_candidate(sol_b, si, L, stack_b[stack_b.len() - 1]));
                }
                lemma_ok_candidate_prefix(sol_b, solution@, si, L, stack@[p]);
            }
            assert(slices_sorted(stack_slices@, stack@.len() as int));
            // The measure shrinks: one candidate of the top level is spent,
            // and the new level's slice will weigh less than that.
            let e_t = (total - t_level) as nat;
            let e_0 = (total - idx0) as nat;
            vstd::arithmetic::power::lemma_pow_positive(b_base, e_t);
            vstd::arithmetic::power::lemma_pow_positive(b_base, e_0);
            vstd::arithmetic::power::lemma_pow1(b_base);
            vstd::arithmetic::power::lemma_pow_adds(b_base, 1nat, (e_t - 1) as nat);
            if e_0 < e_t {
                vstd::arithmetic::power::lemma_pow_strictly_increases(
                    b_base as nat,
                    e_0,
                    (e_t) as nat,
                );
            }
            let lastv = stack_slices@.last() as int;
            let pw = vstd::arithmetic::power::pow(b_base, e_t);
            assert((stack@.len() - lastv) * pw == (stack_b.len() - lastv) * pw - pw)
                by (nonlinear_arith)
                requires
                    stack@.len() == stack_b.len() - 1,
            ;
            assert(gen_phi(stack_slices@, stack@.len() as int, b_base, total as nat) == phi1
                - vstd::arithmetic::power::pow(b_base, e_t));
        }
        index = index + 1;
        proof {
            let phi2 = gen_phi(stack_slices@, stack@.len() as int, b_base, total as nat);
            let e_t = (total - t_level) as nat;
            let e_0 = (total - idx0) as nat;
            let p_t = vstd::arithmetic::power::pow(b_base, e_t);
            let p_t1 = vstd::arithmetic::power::pow(b_base, (e_t - 1) as nat);
            let p_0 = vstd::arithmetic::power::pow(b_base, e_0);
            vstd::arithmetic::power::lemma_pow_positive(b_base, (e_t - 1) as nat);
            vstd::arithmetic::power::lemma_pow1(b_base);
            vstd::arithmetic::power::lemma_pow_adds(b_base, 1nat, (e_t - 1) as nat);
            if e_t - 1 > e_0 - 1 {
                vstd::arithmetic::power::lemma_pow_increases(
                    b_base as nat,
                    (e_0 - 1) as nat,
                    (e_t - 1) as nat,
                );
            }
            assert((total - index) as nat == (e_t - 1) as nat);
            assert(phi2 == phi0 + rem_new * p_0 - p_t);
            assert(phi2 + (si + 1) * p_t1 < phi0 + (si + 1) * p_0) by (nonlinear_arith)
                requires
                    phi2 == phi0 + rem_new * p_0 - p_t,
                    0 <= rem_new <= si,
                    p_t == b_base * p_t1,
                    b_base == si + 2,
                    p_t1 > 0,
                    p_0 > 0,
            ;
            lemma_gen_phi_nonneg(stack_slices@, stack@.len() as int, b_base, total as nat);
            assert((si + 1) * p_t1 >= 0) by (nonlinear_arith)
                requires
                    si + 1 >= 0,
                    p_t1 > 0,
            ;
            assert((total - index) as nat == (e_t - 1) as nat);
            assert(phi2 + (si + 1) * vstd::arithmetic::power::pow(
                b_base,
                (total - index) as nat,
            ) >= 0);
        }
    }

    proof {
        assert forall|x1: int, x2: int, yy: int|
            #![trigger solution@[x1 + yy * (size as nat)], solution@[x2 + yy * (size as nat)]]
            0 <= x1 < x2 < size as nat && 0 <= yy < size as nat implies solution@[x1 + yy * (
        size as nat)] != solution@[x2 + yy * (size as nat)] by {
            let k2 = x2 + yy * si;
            crate::visibility::lemma_index_bound(s as nat, yy, x2);
            crate::visibility::lemma_index_bound(s as nat, yy, x1);
            vstd::arithmetic::div_mod::lemma_fundamental_div_mod_converse(k2, si, yy, x2);
            assert(ok_candidate(solution@, si, k2, solution@[k2]));
        }
        assert forall|xx: int, y1: int, y2: int|
            #![trigger solution@[xx + y1 * (size as nat)], solution@[xx + y2 * (size as nat)]]
            0 <= xx < size as nat && 0 <= y1 < y2 < size as nat implies solution@[xx + y1 * (
        size as nat)] != solution@[xx + y2 * (size as nat)] by {
            let k2 = xx + y2 * si;
            crate::visibility::lemma_index_bound(s as nat, y2, xx);
            crate::visibility::lemma_index_bound(s as nat, y1, xx);
            vstd::arithmetic::div_mod::lemma_fundamental_div_mod_converse(k2, si, y2, xx);
            assert(ok_candidate(solution@, si, k2, solution@[k2]));
        }
    }
    Some(solution)
}

} // verus!
