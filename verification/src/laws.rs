//! Laws of the diff contract: each side is partitioned exactly once, a
//! self-diff is a single `Both` block, the contract is closed under
//! mirroring the two sides, and the contract is minimal — no block run
//! that partitions both sides and marks only equal lines as unchanged
//! leaves more lines unchanged than one meeting the contract.

use crate::diff::{block_eq, blocks_eq, both_total, covers_from, diff_post, lcs, same_tag, DiffLines};
use crate::diff::{lemma_lcs_comm, lemma_lcs_self};
use vstd::prelude::*;

verus! {

/// The number of left-side lines a block covers.
pub open spec fn left_len(x: DiffLines) -> int {
    match x {
        DiffLines::Left(lr) => lr.end - lr.start,
        DiffLines::Right(_) => 0,
        DiffLines::Both(lr, _) => lr.end - lr.start,
    }
}

/// The number of right-side lines a block covers.
pub open spec fn right_len(x: DiffLines) -> int {
    match x {
        DiffLines::Left(_) => 0,
        DiffLines::Right(rr) => rr.end - rr.start,
        DiffLines::Both(_, rr) => rr.end - rr.start,
    }
}

/// Total left-side lines covered across all blocks.
pub open spec fn left_total(r: Seq<DiffLines>) -> int
    decreases r.len(),
{
    if r.len() == 0 {
        0
    } else {
        left_len(r[0]) + left_total(r.drop_first())
    }
}

/// Total right-side lines covered across all blocks.
pub open spec fn right_total(r: Seq<DiffLines>) -> int
    decreases r.len(),
{
    if r.len() == 0 {
        0
    } else {
        right_len(r[0]) + right_total(r.drop_first())
    }
}

/// Left-side lines covered by `Left` blocks alone.
pub open spec fn left_only_total(r: Seq<DiffLines>) -> int
    decreases r.len(),
{
    if r.len() == 0 {
        0
    } else {
        (match r[0] {
            DiffLines::Left(lr) => lr.end - lr.start,
            _ => 0,
        }) + left_only_total(r.drop_first())
    }
}

/// Right-side lines covered by `Right` blocks alone.
pub open spec fn right_only_total(r: Seq<DiffLines>) -> int
    decreases r.len(),
{
    if r.len() == 0 {
        0
    } else {
        (match r[0] {
            DiffLines::Right(rr) => rr.end - rr.start,
            _ => 0,
        }) + right_only_total(r.drop_first())
    }
}

/// A covering run's blocks cover exactly the line span of each side.
proof fn lemma_partition_from(r: Seq<DiffLines>, i: int, j: int, n: int, m: int)
    requires
        covers_from(r, i, j, n, m),
    ensures
        left_total(r) == n - i,
        right_total(r) == m - j,
    decreases r.len(),
{
    if r.len() == 0 {
    } else {
        match r[0] {
            DiffLines::Left(lr) => lemma_partition_from(r.drop_first(), lr.end as int, j, n, m),
            DiffLines::Right(rr) => lemma_partition_from(r.drop_first(), i, rr.end as int, n, m),
            DiffLines::Both(lr, rr) => lemma_partition_from(
                r.drop_first(),
                lr.end as int,
                rr.end as int,
                n,
                m,
            ),
        }
    }
}

/// The one-sided lines are what the covered totals leave after the
/// unchanged pairs; all three counts are nonnegative.
proof fn lemma_split_totals(r: Seq<DiffLines>, i: int, j: int, n: int, m: int)
    requires
        covers_from(r, i, j, n, m),
    ensures
        left_total(r) == both_total(r) + left_only_total(r),
        right_total(r) == both_total(r) + right_only_total(r),
        left_only_total(r) >= 0,
        right_only_total(r) >= 0,
        both_total(r) >= 0,
    decreases r.len(),
{
    if r.len() == 0 {
    } else {
        match r[0] {
            DiffLines::Left(lr) => lemma_split_totals(r.drop_first(), lr.end as int, j, n, m),
            DiffLines::Right(rr) => lemma_split_totals(r.drop_first(), i, rr.end as int, n, m),
            DiffLines::Both(lr, rr) => lemma_split_totals(
                r.drop_first(),
                lr.end as int,
                rr.end as int,
                n,
                m,
            ),
        }
    }
}

/// If no line is covered one-sidedly, every block is a `Both` block.
proof fn lemma_all_both(r: Seq<DiffLines>, i: int, j: int, n: int, m: int)
    requires
        covers_from(r, i, j, n, m),
        left_only_total(r) == 0,
        right_only_total(r) == 0,
    ensures
        forall|k: int| 0 <= k < r.len() ==> (#[trigger] r[k]) matches DiffLines::Both(_, _),
    decreases r.len(),
{
    if r.len() == 0 {
    } else {
        match r[0] {
            DiffLines::Left(lr) => {
                lemma_split_totals(r.drop_first(), lr.end as int, j, n, m);
                assert(false);
            },
            DiffLines::Right(rr) => {
                lemma_split_totals(r.drop_first(), i, rr.end as int, n, m);
                assert(false);
            },
            DiffLines::Both(lr, rr) => {
                lemma_all_both(r.drop_first(), lr.end as int, rr.end as int, n, m);
                assert forall|k: int| 0 <= k < r.len() implies (#[trigger] r[k]) matches
                    DiffLines::Both(_, _) by {
                    if k > 0 {
                        assert(r.drop_first()[k - 1] == r[k]);
                    }
                }
            },
        }
    }
}

/// Law: a diff partitions each side's lines exactly once across the
/// emitted blocks.  By `covers_from` the blocks advance contiguously from
/// line 0 to each side's line count with no gaps and no overlaps, and
/// their extents sum to exactly the line counts.
pub proof fn lemma_diff_partitions(a: Seq<Seq<char>>, b: Seq<Seq<char>>, r: Seq<DiffLines>)
    requires
        diff_post(a, b, r),
    ensures
        covers_from(r, 0, 0, a.len() as int, b.len() as int),
        left_total(r) == a.len(),
        right_total(r) == b.len(),
{
    lemma_partition_from(r, 0, 0, a.len() as int, b.len() as int);
}

/// Law: diffing a nonempty text against itself yields a single `Both`
/// block spanning the full line range on both sides.  (An empty text
/// yields the empty block run, which has no `Both` block to span it.)
pub proof fn lemma_diff_self(a: Seq<Seq<char>>, r: Seq<DiffLines>)
    requires
        diff_post(a, a, r),
        a.len() > 0,
    ensures
        r.len() == 1,
        r[0] matches DiffLines::Both(lr, rr) && lr.start == 0 && lr.end as int == a.len() as int
            && rr.start == 0 && rr.end as int == a.len() as int,
{
    reveal_with_fuel(covers_from, 3);
    let n = a.len() as int;
    lemma_lcs_self(a);
    lemma_partition_from(r, 0, 0, n, n);
    lemma_split_totals(r, 0, 0, n, n);
    lemma_all_both(r, 0, 0, n, n);
    if r.len() == 0 {
        assert(false);
    } else if r.len() >= 2 {
        assert(r.drop_first()[0] == r[1]);
        assert(r[0] matches DiffLines::Both(_, _));
        assert(r[1] matches DiffLines::Both(_, _));
        assert(!same_tag(r[0], r[1]));
        assert(false);
    }
}

/// A single block is nonempty, with equal extents if it is a `Both` block.
pub open spec fn block_shape(x: DiffLines) -> bool {
    match x {
        DiffLines::Left(lr) => lr.start < lr.end,
        DiffLines::Right(rr) => rr.start < rr.end,
        DiffLines::Both(lr, rr) => lr.start < lr.end && lr.end - lr.start == rr.end - rr.start,
    }
}

/// Every block of a covering run is nonempty, and its `Both` blocks cover
/// equal extents on the two sides.
proof fn lemma_covers_shapes(r: Seq<DiffLines>, i: int, j: int, n: int, m: int)
    requires
        covers_from(r, i, j, n, m),
    ensures
        forall|k: int| 0 <= k < r.len() ==> block_shape(#[trigger] r[k]),
    decreases r.len(),
{
    if r.len() == 0 {
    } else {
        match r[0] {
            DiffLines::Left(lr) => lemma_covers_shapes(r.drop_first(), lr.end as int, j, n, m),
            DiffLines::Right(rr) => lemma_covers_shapes(r.drop_first(), i, rr.end as int, n, m),
            DiffLines::Both(lr, rr) => lemma_covers_shapes(
                r.drop_first(),
                lr.end as int,
                rr.end as int,
                n,
                m,
            ),
        }
        assert forall|k: int| 0 <= k < r.len() implies block_shape(#[trigger] r[k]) by {
            if k > 0 {
                assert(r.drop_first()[k - 1] == r[k]);
            }
        }
    }
}

/// A block with its Left/Right tag swapped and its two ranges exchanged.
pub open spec fn mirror_block(x: DiffLines) -> DiffLines {
    match x {
        DiffLines::Left(lr) => DiffLines::Right(lr),
        DiffLines::Right(rr) => DiffLines::Left(rr),
        DiffLines::Both(lr, rr) => DiffLines::Both(rr, lr),
    }
}

/// The mirror image of a diff: every block swapped.
pub open spec fn mirror(r: Seq<DiffLines>) -> Seq<DiffLines> {
    r.map_values(|x: DiffLines| mirror_block(x))
}

proof fn lemma_mirror_covers(r: Seq<DiffLines>, i: int, j: int, n: int, m: int)
    requires
        covers_from(r, i, j, n, m),
    ensures
        covers_from(mirror(r), j, i, m, n),
        both_total(mirror(r)) == both_total(r),
    decreases r.len(),
{
    if r.len() == 0 {
    } else {
        assert(mirror(r)[0] == mirror_block(r[0]));
        assert(mirror(r).drop_first() =~= mirror(r.drop_first()));
        match r[0] {
            DiffLines::Left(lr) => lemma_mirror_covers(r.drop_first(), lr.end as int, j, n, m),
            DiffLines::Right(rr) => lemma_mirror_covers(r.drop_first(), i, rr.end as int, n, m),
            DiffLines::Both(lr, rr) => lemma_mirror_covers(
                r.drop_first(),
                lr.end as int,
                rr.end as int,
                n,
                m,
            ),
        }
    }
}

/// Law: the mirror image of a valid diff of (A, B) — every block with its
/// Left/Right tag swapped and its two ranges exchanged — is a valid diff
/// of (B, A).  The law is stated of the diff contract rather than of one
/// run's exact output: when several diffs are equally minimal, the worker
/// may pick different ones for the two orientations.
pub proof fn lemma_diff_mirror(a: Seq<Seq<char>>, b: Seq<Seq<char>>, r: Seq<DiffLines>)
    requires
        diff_post(a, b, r),
    ensures
        diff_post(b, a, mirror(r)),
{
    lemma_mirror_covers(r, 0, 0, a.len() as int, b.len() as int);
    lemma_covers_shapes(r, 0, 0, a.len() as int, b.len() as int);
    lemma_lcs_comm(a, b);
    assert forall|k: int| 0 <= k < mirror(r).len() implies block_eq(#[trigger] mirror(r)[k], b, a) by {
        assert(mirror(r)[k] == mirror_block(r[k]));
        assert(block_eq(r[k], a, b));
        match r[k] {
            DiffLines::Both(lr, rr) => {
                assert forall|t: int| 0 <= t < rr.end - rr.start implies #[trigger] b[rr.start + t]
                    == a[lr.start + t] by {
                    assert(a[lr.start + t] == b[rr.start + t]);
                }
            },
            _ => {},
        }
    }
    assert forall|k: int| 0 <= k < mirror(r).len() - 1 implies !same_tag(
        #[trigger] mirror(r)[k],
        mirror(r)[k + 1],
    ) by {
        assert(mirror(r)[k] == mirror_block(r[k]));
        assert(mirror(r)[k + 1] == mirror_block(r[k + 1]));
        assert(!same_tag(r[k], r[k + 1]));
    }
}


/// Dropping the last element of either side never increases the
/// longest-common-subsequence length, and adding one back increases it by
/// at most one.
proof fn lemma_lcs_drop_left(a: Seq<Seq<char>>, b: Seq<Seq<char>>)
    requires
        a.len() > 0,
    ensures
        lcs(a.drop_last(), b) <= lcs(a, b),
        lcs(a, b) <= lcs(a.drop_last(), b) + 1,
    decreases a.len() + b.len(),
{
    if b.len() == 0 {
    } else if a.last() == b.last() {
        // lcs(a, b) == lcs(a', b') + 1, and lcs(a', b') <= lcs(a', b)
        lemma_lcs_drop_right(a.drop_last(), b);
    } else {
        // lcs(a, b) == max(lcs(a', b), lcs(a, b'))
        lemma_lcs_drop_right(a.drop_last(), b);
        lemma_lcs_drop_left(a, b.drop_last());
    }
}

/// The mirror statement of `lemma_lcs_drop_left`, for the right side.
proof fn lemma_lcs_drop_right(a: Seq<Seq<char>>, b: Seq<Seq<char>>)
    requires
        b.len() > 0,
    ensures
        lcs(a, b.drop_last()) <= lcs(a, b),
        lcs(a, b) <= lcs(a, b.drop_last()) + 1,
    decreases a.len() + b.len(),
{
    if a.len() == 0 {
    } else if a.last() == b.last() {
        // lcs(a, b) == lcs(a', b') + 1, and lcs(a', b') <= lcs(a, b')
        lemma_lcs_drop_left(a, b.drop_last());
    } else {
        lemma_lcs_drop_right(a.drop_last(), b);
        lemma_lcs_drop_left(a, b.drop_last());
    }
}

/// A matching of equal lines: strictly increasing index pairs whose lines
/// agree on the two sides.
pub open spec fn is_matching(p: Seq<(int, int)>, a: Seq<Seq<char>>, b: Seq<Seq<char>>) -> bool {
    &&& (forall|k: int|
        0 <= k < p.len() ==> 0 <= (#[trigger] p[k]).0 < a.len() && 0 <= p[k].1 < b.len()
            && a[p[k].0] == b[p[k].1])
    &&& (forall|k: int|
        0 <= k < p.len() - 1 ==> (#[trigger] p[k]).0 < p[k + 1].0 && p[k].1 < p[k + 1].1)
}

proof fn lemma_matching_sorted(p: Seq<(int, int)>, a: Seq<Seq<char>>, b: Seq<Seq<char>>, k1: int, k2: int)
    requires
        is_matching(p, a, b),
        0 <= k1 <= k2 < p.len(),
    ensures
        p[k1].0 <= p[k2].0,
        p[k1].1 <= p[k2].1,
        k1 < k2 ==> p[k1].0 < p[k2].0 && p[k1].1 < p[k2].1,
    decreases k2 - k1,
{
    if k1 < k2 {
        lemma_matching_sorted(p, a, b, k1, k2 - 1);
    }
}

/// No matching of equal lines is longer than a longest common
/// subsequence.
proof fn lemma_matching_bound(p: Seq<(int, int)>, a: Seq<Seq<char>>, b: Seq<Seq<char>>)
    requires
        is_matching(p, a, b),
    ensures
        p.len() <= lcs(a, b),
    decreases a.len() + b.len(),
{
    if p.len() == 0 {
    } else {
        let last = p[p.len() - 1];
        if last.0 == a.len() - 1 && last.1 == b.len() - 1 {
            // The last pair matches the two final lines; peel all three.
            let q = p.drop_last();
            assert forall|k: int|
                0 <= k < q.len() implies 0 <= (#[trigger] q[k]).0 < a.drop_last().len() && 0
                <= q[k].1 < b.drop_last().len() && a.drop_last()[q[k].0] == b.drop_last()[q[k].1] by {
                lemma_matching_sorted(p, a, b, k, p.len() - 1);
            }
            assert(is_matching(q, a.drop_last(), b.drop_last()));
            lemma_matching_bound(q, a.drop_last(), b.drop_last());
            assert(a.last() == b.last());
        } else if last.0 < a.len() - 1 {
            // Every pair avoids the last left line: bound within (a', b).
            assert forall|k: int|
                0 <= k < p.len() implies 0 <= (#[trigger] p[k]).0 < a.drop_last().len() && 0
                <= p[k].1 < b.len() && a.drop_last()[p[k].0] == b.drop_last().push(b.last())[p[k].1] by {
                lemma_matching_sorted(p, a, b, k, p.len() - 1);
            }
            assert(is_matching(p, a.drop_last(), b));
            lemma_matching_bound(p, a.drop_last(), b);
            lemma_lcs_drop_left(a, b);
        } else {
            // last.0 == a.len() - 1, so last.1 < b.len() - 1 (else the
            // first case), and every pair avoids the last right line.
            assert(last.1 < b.len() - 1);
            assert forall|k: int|
                0 <= k < p.len() implies 0 <= (#[trigger] p[k]).0 < a.len() && 0 <= p[k].1 < b.drop_last().len()
                && a[p[k].0] == b.drop_last()[p[k].1] by {
                lemma_matching_sorted(p, a, b, k, p.len() - 1);
            }
            assert(is_matching(p, a, b.drop_last()));
            lemma_matching_bound(p, a, b.drop_last());
            lemma_lcs_drop_right(a, b);
        }
    }
}

/// The index pairs a single block marks as unchanged.
pub open spec fn block_pairs(x: DiffLines) -> Seq<(int, int)> {
    match x {
        DiffLines::Both(lr, rr) => Seq::new(
            (lr.end - lr.start) as nat,
            |t: int| (lr.start + t, rr.start + t),
        ),
        _ => Seq::empty(),
    }
}

/// The index pairs a block run marks as unchanged, in block order.
pub open spec fn run_pairs(r: Seq<DiffLines>) -> Seq<(int, int)>
    decreases r.len(),
{
    if r.len() == 0 {
        Seq::empty()
    } else {
        block_pairs(r[0]) + run_pairs(r.drop_first())
    }
}

/// The unchanged pairs of a covering run with equal `Both` lines form a
/// matching of the size the run's `Both` blocks report, with all indices
/// at or past the run's start positions.
proof fn lemma_run_pairs_matching(
    r: Seq<DiffLines>,
    i: int,
    j: int,
    a: Seq<Seq<char>>,
    b: Seq<Seq<char>>,
)
    requires
        covers_from(r, i, j, a.len() as int, b.len() as int),
        blocks_eq(r, a, b),
        0 <= i,
        0 <= j,
    ensures
        is_matching(run_pairs(r), a, b),
        run_pairs(r).len() == both_total(r),
        forall|k: int|
            0 <= k < run_pairs(r).len() ==> (#[trigger] run_pairs(r)[k]).0 >= i && run_pairs(
                r,
            )[k].1 >= j,
    decreases r.len(),
{
    if r.len() == 0 {
    } else {
        assert forall|k: int| 0 <= k < r.drop_first().len() implies block_eq(
            #[trigger] r.drop_first()[k],
            a,
            b,
        ) by {
            assert(r.drop_first()[k] == r[k + 1]);
            assert(block_eq(r[k + 1], a, b));
        }
        let p0 = block_pairs(r[0]);
        let rest = run_pairs(r.drop_first());
        match r[0] {
            DiffLines::Left(lr) => {
                lemma_run_pairs_matching(r.drop_first(), lr.end as int, j, a, b);
                assert(run_pairs(r) =~= rest);
            },
            DiffLines::Right(rr) => {
                lemma_run_pairs_matching(r.drop_first(), i, rr.end as int, a, b);
                assert(run_pairs(r) =~= rest);
            },
            DiffLines::Both(lr, rr) => {
                lemma_run_pairs_matching(r.drop_first(), lr.end as int, rr.end as int, a, b);
                assert(block_eq(r[0], a, b));
                let p = run_pairs(r);
                assert(p.len() == p0.len() + rest.len());
                assert forall|k: int|
                    0 <= k < p.len() implies 0 <= (#[trigger] p[k]).0 < a.len() && 0 <= p[k].1
                    < b.len() && a[p[k].0] == b[p[k].1] && p[k].0 >= i && p[k].1 >= j by {
                    if k < p0.len() {
                        assert(p[k] == p0[k]);
                        assert(a[lr.start + k] == b[rr.start + k]);
                    } else {
                        assert(p[k] == rest[k - p0.len()]);
                    }
                }
                assert forall|k: int|
                    0 <= k < p.len() - 1 implies (#[trigger] p[k]).0 < p[k + 1].0 && p[k].1 < p[k
                    + 1].1 by {
                    if k + 1 < p0.len() {
                        assert(p[k] == p0[k]);
                        assert(p[k + 1] == p0[k + 1]);
                    } else if k < p0.len() {
                        assert(p[k] == p0[k]);
                        assert(p[k + 1] == rest[0]);
                        assert(p0[k].0 == lr.start + k < lr.end);
                        assert(rest[0].0 >= lr.end as int);
                        assert(rest[0].1 >= rr.end as int);
                    } else {
                        assert(p[k] == rest[k - p0.len()]);
                        assert(p[k + 1] == rest[k + 1 - p0.len()]);
                    }
                }
            },
        }
    }
}

/// Law: the worker's diff is minimal.  Any block run that partitions both
/// sides and marks only equal lines as unchanged leaves at most as many
/// lines unchanged as a diff satisfying the contract, which reaches the
/// longest-common-subsequence length exactly.
pub proof fn lemma_diff_minimal(
    a: Seq<Seq<char>>,
    b: Seq<Seq<char>>,
    r: Seq<DiffLines>,
    other: Seq<DiffLines>,
)
    requires
        diff_post(a, b, r),
        covers_from(other, 0, 0, a.len() as int, b.len() as int),
        blocks_eq(other, a, b),
    ensures
        both_total(other) <= both_total(r),
{
    lemma_run_pairs_matching(other, 0, 0, a, b);
    lemma_matching_bound(run_pairs(other), a, b);
}

} // verus!
