//! Line-level diff blocks and the longest-common-subsequence diff worker.
//!
//! A diff of two line sequences is an ordered run of blocks, each a
//! contiguous range of lines present only on the left, only on the right,
//! or an equal run present on both sides.  The blocks partition both
//! sides' line ranges with no gaps and no overlaps, adjacent blocks never
//! share a tag, and the total number of lines covered by `Both` blocks
//! equals the length of a longest common subsequence of the two sides.

use vstd::pervasive::VecAdditionalExecFns;
use vstd::prelude::*;

verus! {

/// A contiguous run of line numbers `start..end` in one side's coordinates.
#[derive(Clone, Copy, Debug, PartialEq, Eq, Structural)]
pub struct LineRange {
    pub start: usize,
    pub end: usize,
}

/// One contiguous block of a line diff: lines present only on the left,
/// lines present only on the right, or an equal run present on both sides
/// (left range first, right range second; the two ranges have equal length).
#[derive(Clone, Copy, Debug, PartialEq, Eq, Structural)]
pub enum DiffLines {
    Left(LineRange),
    Right(LineRange),
    Both(LineRange, LineRange),
}

/// The lines of a buffer, as a sequence of character sequences.
pub open spec fn lines_view(v: Seq<String>) -> Seq<Seq<char>> {
    v.map_values(|s: String| s@)
}

/// The blocks `r`, read in order, advance the left cursor from `i` to `n`
/// and the right cursor from `j` to `m` contiguously: each block is
/// nonempty, starts exactly where the previous one ended on its side(s),
/// and a `Both` block covers ranges of equal length on the two sides.
pub open spec fn covers_from(r: Seq<DiffLines>, i: int, j: int, n: int, m: int) -> bool
    decreases r.len(),
{
    if r.len() == 0 {
        i == n && j == m
    } else {
        match r[0] {
            DiffLines::Left(lr) => lr.start as int == i && lr.start < lr.end && lr.end as int
                <= n && covers_from(r.drop_first(), lr.end as int, j, n, m),
            DiffLines::Right(rr) => rr.start as int == j && rr.start < rr.end && rr.end as int
                <= m && covers_from(r.drop_first(), i, rr.end as int, n, m),
            DiffLines::Both(lr, rr) => lr.start as int == i && rr.start as int == j && lr.start
                < lr.end && lr.end as int <= n && rr.end as int <= m && lr.end - lr.start == rr.end
                - rr.start && covers_from(r.drop_first(), lr.end as int, rr.end as int, n, m),
        }
    }
}

/// A `Both` block only covers lines that are equal on the two sides.
pub open spec fn block_eq(x: DiffLines, a: Seq<Seq<char>>, b: Seq<Seq<char>>) -> bool {
    match x {
        DiffLines::Both(lr, rr) => forall|t: int|
            0 <= t < lr.end - lr.start ==> #[trigger] a[lr.start + t] == b[rr.start + t],
        _ => true,
    }
}

/// Every `Both` block of `r` covers only lines equal on the two sides.
pub open spec fn blocks_eq(r: Seq<DiffLines>, a: Seq<Seq<char>>, b: Seq<Seq<char>>) -> bool {
    forall|k: int| 0 <= k < r.len() ==> block_eq(#[trigger] r[k], a, b)
}

/// Whether two blocks carry the same tag.
pub open spec fn same_tag(x: DiffLines, y: DiffLines) -> bool {
    match (x, y) {
        (DiffLines::Left(_), DiffLines::Left(_)) => true,
        (DiffLines::Right(_), DiffLines::Right(_)) => true,
        (DiffLines::Both(_, _), DiffLines::Both(_, _)) => true,
        _ => false,
    }
}

/// No two adjacent blocks share a tag: mergeable runs are always merged.
pub open spec fn merged(r: Seq<DiffLines>) -> bool {
    forall|k: int| 0 <= k < r.len() - 1 ==> !same_tag(#[trigger] r[k], r[k + 1])
}

/// The number of line pairs a single block marks as unchanged.
pub open spec fn both_len(x: DiffLines) -> int {
    match x {
        DiffLines::Both(lr, _) => lr.end - lr.start,
        _ => 0,
    }
}

/// The total number of line pairs marked unchanged across all blocks.
pub open spec fn both_total(r: Seq<DiffLines>) -> int
    decreases r.len(),
{
    if r.len() == 0 {
        0
    } else {
        both_len(r[0]) + both_total(r.drop_first())
    }
}

/// The length of a longest common subsequence of two line sequences.
pub open spec fn lcs(a: Seq<Seq<char>>, b: Seq<Seq<char>>) -> nat
    decreases a.len() + b.len(),
{
    if a.len() == 0 || b.len() == 0 {
        0
    } else if a.last() == b.last() {
        lcs(a.drop_last(), b.drop_last()) + 1
    } else {
        let x = lcs(a.drop_last(), b);
        let y = lcs(a, b.drop_last());
        if x >= y {
            x
        } else {
            y
        }
    }
}

/// The full contract of a computed diff: the blocks partition both sides
/// (no gaps, no overlaps, ascending), `Both` blocks cover only equal
/// lines, adjacent blocks never share a tag, and the unchanged-line count
/// is the longest-common-subsequence length (so the diff marks as changed
/// as few lines as any diff can).
pub open spec fn diff_post(a: Seq<Seq<char>>, b: Seq<Seq<char>>, r: Seq<DiffLines>) -> bool {
    &&& covers_from(r, 0, 0, a.len() as int, b.len() as int)
    &&& blocks_eq(r, a, b)
    &&& merged(r)
    &&& both_total(r) == lcs(a, b)
}

/// A longest common subsequence is no longer than either side.
pub proof fn lemma_lcs_bound(a: Seq<Seq<char>>, b: Seq<Seq<char>>)
    ensures
        lcs(a, b) <= a.len(),
        lcs(a, b) <= b.len(),
    decreases a.len() + b.len(),
{
    if a.len() == 0 || b.len() == 0 {
    } else if a.last() == b.last() {
        lemma_lcs_bound(a.drop_last(), b.drop_last());
    } else {
        lemma_lcs_bound(a.drop_last(), b);
        lemma_lcs_bound(a, b.drop_last());
    }
}

/// The longest-common-subsequence length is symmetric in its arguments.
pub proof fn lemma_lcs_comm(a: Seq<Seq<char>>, b: Seq<Seq<char>>)
    ensures
        lcs(a, b) == lcs(b, a),
    decreases a.len() + b.len(),
{
    if a.len() == 0 || b.len() == 0 {
    } else if a.last() == b.last() {
        lemma_lcs_comm(a.drop_last(), b.drop_last());
    } else {
        lemma_lcs_comm(a.drop_last(), b);
        lemma_lcs_comm(a, b.drop_last());
    }
}

/// A sequence diffed against itself has every line in common.
pub proof fn lemma_lcs_self(a: Seq<Seq<char>>)
    ensures
        lcs(a, a) == a.len(),
    decreases a.len(),
{
    if a.len() > 0 {
        lemma_lcs_self(a.drop_last());
    }
}

proof fn lemma_take_drop_last(s: Seq<Seq<char>>, i: int)
    requires
        1 <= i <= s.len(),
    ensures
        s.take(i).drop_last() =~= s.take(i - 1),
        s.take(i).last() == s[i - 1],
{
}

proof fn lemma_lcs_diag(a: Seq<Seq<char>>, b: Seq<Seq<char>>, i: int, j: int)
    requires
        1 <= i <= a.len(),
        1 <= j <= b.len(),
        a[i - 1] == b[j - 1],
    ensures
        lcs(a.take(i), b.take(j)) == lcs(a.take(i - 1), b.take(j - 1)) + 1,
{
    lemma_take_drop_last(a, i);
    lemma_take_drop_last(b, j);
}

proof fn lemma_lcs_step(a: Seq<Seq<char>>, b: Seq<Seq<char>>, i: int, j: int)
    requires
        1 <= i <= a.len(),
        1 <= j <= b.len(),
        a[i - 1] != b[j - 1],
    ensures
        lcs(a.take(i), b.take(j)) == if lcs(a.take(i - 1), b.take(j)) >= lcs(
            a.take(i),
            b.take(j - 1),
        ) {
            lcs(a.take(i - 1), b.take(j))
        } else {
            lcs(a.take(i), b.take(j - 1))
        },
{
    lemma_take_drop_last(a, i);
    lemma_take_drop_last(b, j);
}

/// The final block of a covering run is nonempty, balanced if `Both`, and
/// ends exactly at the run's end position on its side(s).
proof fn lemma_covers_last(r: Seq<DiffLines>, i: int, j: int, n: int, m: int)
    requires
        covers_from(r, i, j, n, m),
        r.len() > 0,
    ensures
        match r.last() {
            DiffLines::Left(lr) => lr.start < lr.end && lr.end as int == n,
            DiffLines::Right(rr) => rr.start < rr.end && rr.end as int == m,
            DiffLines::Both(lr, rr) => lr.start < lr.end && lr.end as int == n && rr.end as int
                == m && lr.end - lr.start == rr.end - rr.start,
        },
    decreases r.len(),
{
    reveal_with_fuel(covers_from, 3);
    if r.len() == 1 {
    } else {
        assert(r.drop_first().last() == r.last());
        match r[0] {
            DiffLines::Left(lr) => lemma_covers_last(r.drop_first(), lr.end as int, j, n, m),
            DiffLines::Right(rr) => lemma_covers_last(r.drop_first(), i, rr.end as int, n, m),
            DiffLines::Both(lr, rr) => lemma_covers_last(
                r.drop_first(),
                lr.end as int,
                rr.end as int,
                n,
                m,
            ),
        }
    }
}

/// Appending a block that starts exactly at the run's current end keeps
/// the run covering, with the end advanced past the new block.
proof fn lemma_covers_push(
    r: Seq<DiffLines>,
    i: int,
    j: int,
    n: int,
    m: int,
    x: DiffLines,
    n2: int,
    m2: int,
)
    requires
        covers_from(r, i, j, n, m),
        match x {
            DiffLines::Left(lr) => lr.start as int == n && lr.start < lr.end && lr.end as int == n2
                && m2 == m,
            DiffLines::Right(rr) => rr.start as int == m && rr.start < rr.end && rr.end as int
                == m2 && n2 == n,
            DiffLines::Both(lr, rr) => lr.start as int == n && rr.start as int == m && lr.start
                < lr.end && lr.end as int == n2 && rr.end as int == m2 && lr.end - lr.start
                == rr.end - rr.start,
        },
    ensures
        covers_from(r.push(x), i, j, n2, m2),
    decreases r.len(),
{
    reveal_with_fuel(covers_from, 3);
    if r.len() == 0 {
        assert(r.push(x)[0] == x);
        assert(r.push(x).drop_first() =~= Seq::<DiffLines>::empty());
    } else {
        assert(r.push(x)[0] == r[0]);
        assert(r.push(x).drop_first() =~= r.drop_first().push(x));
        match r[0] {
            DiffLines::Left(lr) => lemma_covers_push(
                r.drop_first(),
                lr.end as int,
                j,
                n,
                m,
                x,
                n2,
                m2,
            ),
            DiffLines::Right(rr) => lemma_covers_push(
                r.drop_first(),
                i,
                rr.end as int,
                n,
                m,
                x,
                n2,
                m2,
            ),
            DiffLines::Both(lr, rr) => lemma_covers_push(
                r.drop_first(),
                lr.end as int,
                rr.end as int,
                n,
                m,
                x,
                n2,
                m2,
            ),
        }
    }
}

/// Replacing the final block by the same block extended one line further
/// on its side(s) keeps the run covering, with the end advanced by one.
proof fn lemma_covers_extend(r: Seq<DiffLines>, i: int, j: int, n: int, m: int, x: DiffLines)
    requires
        covers_from(r, i, j, n, m),
        r.len() > 0,
        match (r.last(), x) {
            (DiffLines::Left(l0), DiffLines::Left(lr)) => lr.start == l0.start && lr.end == l0.end
                + 1,
            (DiffLines::Right(r0), DiffLines::Right(rr)) => rr.start == r0.start && rr.end
                == r0.end + 1,
            (DiffLines::Both(l0, r0), DiffLines::Both(lr, rr)) => lr.start == l0.start && lr.end
                == l0.end + 1 && rr.start == r0.start && rr.end == r0.end + 1,
            _ => false,
        },
    ensures
        match x {
            DiffLines::Left(_) => covers_from(r.update(r.len() - 1, x), i, j, n + 1, m),
            DiffLines::Right(_) => covers_from(r.update(r.len() - 1, x), i, j, n, m + 1),
            DiffLines::Both(_, _) => covers_from(r.update(r.len() - 1, x), i, j, n + 1, m + 1),
        },
    decreases r.len(),
{
    reveal_with_fuel(covers_from, 3);
    let u = r.update(r.len() - 1, x);
    if r.len() == 1 {
        assert(u[0] == x);
        assert(u.drop_first() =~= Seq::<DiffLines>::empty());
    } else {
        assert(u[0] == r[0]);
        assert(u.drop_first() =~= r.drop_first().update(r.drop_first().len() - 1, x));
        assert(r.drop_first().last() == r.last());
        match r[0] {
            DiffLines::Left(lr) => lemma_covers_extend(r.drop_first(), lr.end as int, j, n, m, x),
            DiffLines::Right(rr) => lemma_covers_extend(r.drop_first(), i, rr.end as int, n, m, x),
            DiffLines::Both(lr, rr) => lemma_covers_extend(
                r.drop_first(),
                lr.end as int,
                rr.end as int,
                n,
                m,
                x,
            ),
        }
    }
}

proof fn lemma_both_total_push(r: Seq<DiffLines>, x: DiffLines)
    ensures
        both_total(r.push(x)) == both_total(r) + both_len(x),
    decreases r.len(),
{
    reveal_with_fuel(both_total, 3);
    if r.len() == 0 {
        assert(r.push(x)[0] == x);
        assert(r.push(x).drop_first() =~= Seq::<DiffLines>::empty());
    } else {
        assert(r.push(x)[0] == r[0]);
        assert(r.push(x).drop_first() =~= r.drop_first().push(x));
        lemma_both_total_push(r.drop_first(), x);
    }
}

proof fn lemma_both_total_update_last(r: Seq<DiffLines>, x: DiffLines)
    requires
        r.len() > 0,
    ensures
        both_total(r.update(r.len() - 1, x)) == both_total(r) - both_len(r.last()) + both_len(x),
    decreases r.len(),
{
    reveal_with_fuel(both_total, 3);
    let u = r.update(r.len() - 1, x);
    if r.len() == 1 {
        assert(u[0] == x);
        assert(u.drop_first() =~= Seq::<DiffLines>::empty());
    } else {
        assert(u[0] == r[0]);
        assert(u.drop_first() =~= r.drop_first().update(r.drop_first().len() - 1, x));
        assert(r.drop_first().last() == r.last());
        lemma_both_total_update_last(r.drop_first(), x);
    }
}

proof fn lemma_blocks_eq_push(r: Seq<DiffLines>, a: Seq<Seq<char>>, b: Seq<Seq<char>>, x: DiffLines)
    requires
        blocks_eq(r, a, b),
        block_eq(x, a, b),
    ensures
        blocks_eq(r.push(x), a, b),
{
    assert forall|k: int| 0 <= k < r.push(x).len() implies block_eq(#[trigger] r.push(x)[k], a, b) by {
        if k < r.len() {
            assert(r.push(x)[k] == r[k]);
            assert(block_eq(r[k], a, b));
        } else {
            assert(r.push(x)[k] == x);
        }
    }
}

proof fn lemma_blocks_eq_update_last(
    r: Seq<DiffLines>,
    a: Seq<Seq<char>>,
    b: Seq<Seq<char>>,
    x: DiffLines,
)
    requires
        blocks_eq(r, a, b),
        block_eq(x, a, b),
        r.len() > 0,
    ensures
        blocks_eq(r.update(r.len() - 1, x), a, b),
{
    let u = r.update(r.len() - 1, x);
    assert forall|k: int| 0 <= k < u.len() implies block_eq(#[trigger] u[k], a, b) by {
        if k < r.len() - 1 {
            assert(u[k] == r[k]);
            assert(block_eq(r[k], a, b));
        } else {
            assert(u[k] == x);
        }
    }
}

proof fn lemma_merged_push(r: Seq<DiffLines>, x: DiffLines)
    requires
        merged(r),
        r.len() > 0 ==> !same_tag(r.last(), x),
    ensures
        merged(r.push(x)),
{
    let u = r.push(x);
    assert forall|k: int| 0 <= k < u.len() - 1 implies !same_tag(#[trigger] u[k], u[k + 1]) by {
        if k < r.len() - 1 {
            assert(u[k] == r[k]);
            assert(u[k + 1] == r[k + 1]);
            assert(!same_tag(r[k], r[k + 1]));
        } else {
            assert(u[k] == r.last());
            assert(u[k + 1] == x);
        }
    }
}

proof fn lemma_merged_update_last(r: Seq<DiffLines>, x: DiffLines)
    requires
        merged(r),
        r.len() > 0,
        same_tag(r.last(), x),
    ensures
        merged(r.update(r.len() - 1, x)),
{
    let u = r.update(r.len() - 1, x);
    assert forall|k: int| 0 <= k < u.len() - 1 implies !same_tag(#[trigger] u[k], u[k + 1]) by {
        assert(u[k] == r[k]);
        assert(!same_tag(r[k], r[k + 1]));
        if k + 1 == r.len() - 1 {
            assert(u[k + 1] == x);
            assert(same_tag(r[k + 1], x));
        } else {
            assert(u[k + 1] == r[k + 1]);
        }
    }
}


/// The dynamic-programming table: `dp[i][j]` is the LCS length of the
/// first `i` left lines and the first `j` right lines.
spec fn dp_ok(dp: Seq<Vec<usize>>, a: Seq<Seq<char>>, b: Seq<Seq<char>>) -> bool {
    &&& dp.len() == a.len() + 1
    &&& (forall|i: int| 0 <= i <= a.len() ==> (#[trigger] dp[i])@.len() == b.len() + 1)
    &&& (forall|i: int, j: int|
        0 <= i <= a.len() && 0 <= j <= b.len() ==> (#[trigger] dp[i]@[j]) as int == lcs(
            a.take(i),
            b.take(j),
        ))
}

fn lcs_table(a: &Vec<String>, b: &Vec<String>) -> (dp: Vec<Vec<usize>>)
    requires
        a@.len() < usize::MAX,
        b@.len() < usize::MAX,
    ensures
        dp_ok(dp@, lines_view(a@), lines_view(b@)),
{
    let ghost av = lines_view(a@);
    let ghost bv = lines_view(b@);
    let n = a.len();
    let m = b.len();
    let mut dp: Vec<Vec<usize>> = Vec::new();
    let mut i: usize = 0;
    while i <= n
        invariant
            i <= n + 1,
            n == a@.len() < usize::MAX,
            m == b@.len() < usize::MAX,
            av == lines_view(a@),
            bv == lines_view(b@),
            dp@.len() == i as int,
            forall|i2: int| 0 <= i2 < i ==> (#[trigger] dp@[i2])@.len() == m + 1,
            forall|i2: int, j2: int|
                0 <= i2 < i && 0 <= j2 <= m ==> (#[trigger] dp@[i2]@[j2]) as int == lcs(
                    av.take(i2),
                    bv.take(j2),
                ),
        decreases n + 1 - i,
    {
        let mut row: Vec<usize> = Vec::new();
        let mut j: usize = 0;
        while j <= m
            invariant
                j <= m + 1,
                i <= n,
                n == a@.len() < usize::MAX,
                m == b@.len() < usize::MAX,
                av == lines_view(a@),
                bv == lines_view(b@),
                dp@.len() == i as int,
                forall|i2: int| 0 <= i2 < i ==> (#[trigger] dp@[i2])@.len() == m + 1,
                forall|i2: int, j2: int|
                    0 <= i2 < i && 0 <= j2 <= m ==> (#[trigger] dp@[i2]@[j2]) as int == lcs(
                        av.take(i2),
                        bv.take(j2),
                    ),
                row@.len() == j as int,
                forall|j2: int|
                    0 <= j2 < j ==> (#[trigger] row@[j2]) as int == lcs(
                        av.take(i as int),
                        bv.take(j2),
                    ),
        decreases m + 1 - j,
        {
            let v: usize;
            if i == 0 || j == 0 {
                v = 0;
                proof {
                    assert(av.take(i as int).len() == i as int);
                    assert(bv.take(j as int).len() == j as int);
                }
            } else if a[i - 1] == b[j - 1] {
                proof {
                    assert(av[i - 1] == a@[i - 1]@);
                    assert(bv[j - 1] == b@[j - 1]@);
                    lemma_lcs_diag(av, bv, i as int, j as int);
                    lemma_lcs_bound(av.take(i - 1), bv.take(j - 1));
                    assert(av.take(i - 1).len() == i - 1);
                }
                v = dp[i - 1][j - 1] + 1;
            } else {
                proof {
                    assert(av[i - 1] == a@[i - 1]@);
                    assert(bv[j - 1] == b@[j - 1]@);
                    lemma_lcs_step(av, bv, i as int, j as int);
                }
                let x = dp[i - 1][j];
                let y = row[j - 1];
                v = if x >= y {
                    x
                } else {
                    y
                };
            }
            row.push(v);
            j += 1;
        }
        dp.push(row);
        i += 1;
    }
    dp
}

/// Walks the table from `(i, j)` back to the origin, emitting the diff
/// blocks for the first `i` left lines against the first `j` right lines.
fn backtrack(a: &Vec<String>, b: &Vec<String>, dp: &Vec<Vec<usize>>, i: usize, j: usize) -> (r:
    Vec<DiffLines>)
    requires
        i <= a@.len(),
        j <= b@.len(),
        a@.len() < usize::MAX,
        b@.len() < usize::MAX,
        dp_ok(dp@, lines_view(a@), lines_view(b@)),
    ensures
        covers_from(r@, 0, 0, i as int, j as int),
        blocks_eq(r@, lines_view(a@), lines_view(b@)),
        merged(r@),
        both_total(r@) == lcs(lines_view(a@).take(i as int), lines_view(b@).take(j as int)),
    decreases i + j,
{
    let ghost av = lines_view(a@);
    let ghost bv = lines_view(b@);
    if i == 0 && j == 0 {
        let r: Vec<DiffLines> = Vec::new();
        proof {
            reveal_with_fuel(covers_from, 2);
            reveal_with_fuel(both_total, 2);
            assert(av.take(0).len() == 0);
        }
        r
    } else if i > 0 && j > 0 && a[i - 1] == b[j - 1] {
        let mut r = backtrack(a, b, dp, i - 1, j - 1);
        proof {
            assert(av[i - 1] == a@[i - 1]@);
            assert(bv[j - 1] == b@[j - 1]@);
            lemma_lcs_diag(av, bv, i as int, j as int);
        }
        let rlen = r.len();
        let mut extend = false;
        let ghost r0 = r@;
        if rlen > 0 {
            if let DiffLines::Both(_, _) = r[rlen - 1] {
                extend = true;
            }
        }
        if extend {
            if let DiffLines::Both(lr, rr) = r[rlen - 1] {
                proof {
                    lemma_covers_last(r0, 0, 0, i as int - 1, j as int - 1);
                }
                let nb = DiffLines::Both(
                    LineRange { start: lr.start, end: i },
                    LineRange { start: rr.start, end: j },
                );
                proof {
                    lemma_covers_extend(r0, 0, 0, i as int - 1, j as int - 1, nb);
                    lemma_both_total_update_last(r0, nb);
                    lemma_merged_update_last(r0, nb);
                    assert forall|t: int| 0 <= t < i - lr.start implies #[trigger] av[lr.start + t]
                        == bv[rr.start + t] by {
                        if t < i - 1 - lr.start {
                            assert(block_eq(r0[rlen - 1], av, bv));
                        } else {
                            assert(lr.start + t == i - 1);
                            assert(rr.start + t == j - 1);
                        }
                    }
                    assert(block_eq(nb, av, bv));
                    lemma_blocks_eq_update_last(r0, av, bv, nb);
                }
                r.set(rlen - 1, nb);
            }
            r
        } else {
            let nb = DiffLines::Both(
                LineRange { start: i - 1, end: i },
                LineRange { start: j - 1, end: j },
            );
            proof {
                if r0.len() > 0 {
                    lemma_covers_last(r0, 0, 0, i as int - 1, j as int - 1);
                }
                lemma_covers_push(r0, 0, 0, i as int - 1, j as int - 1, nb, i as int, j as int);
                lemma_both_total_push(r0, nb);
                lemma_merged_push(r0, nb);
                assert forall|t: int| 0 <= t < 1 implies #[trigger] av[i - 1 + t] == bv[j - 1 + t]
                    by {}
                assert(block_eq(nb, av, bv));
                lemma_blocks_eq_push(r0, av, bv, nb);
            }
            r.push(nb);
            r
        }
    } else if j > 0 && (i == 0 || dp[i][j - 1] >= dp[i - 1][j]) {
        let mut r = backtrack(a, b, dp, i, j - 1);
        proof {
            if i == 0 {
                assert(av.take(0).len() == 0);
            } else {
                assert(av[i - 1] == a@[i - 1]@);
                assert(bv[j - 1] == b@[j - 1]@);
                lemma_lcs_step(av, bv, i as int, j as int);
            }
        }
        let rlen = r.len();
        let mut extend = false;
        let ghost r0 = r@;
        if rlen > 0 {
            if let DiffLines::Right(_) = r[rlen - 1] {
                extend = true;
            }
        }
        if extend {
            if let DiffLines::Right(rr) = r[rlen - 1] {
                proof {
                    lemma_covers_last(r0, 0, 0, i as int, j as int - 1);
                }
                let nb = DiffLines::Right(LineRange { start: rr.start, end: j });
                proof {
                    lemma_covers_extend(r0, 0, 0, i as int, j as int - 1, nb);
                    lemma_both_total_update_last(r0, nb);
                    lemma_merged_update_last(r0, nb);
                    assert(block_eq(nb, av, bv));
                    lemma_blocks_eq_update_last(r0, av, bv, nb);
                }
                r.set(rlen - 1, nb);
            }
            r
        } else {
            let nb = DiffLines::Right(LineRange { start: j - 1, end: j });
            proof {
                if r0.len() > 0 {
                    lemma_covers_last(r0, 0, 0, i as int, j as int - 1);
                }
                lemma_covers_push(r0, 0, 0, i as int, j as int - 1, nb, i as int, j as int);
                lemma_both_total_push(r0, nb);
                lemma_merged_push(r0, nb);
                assert(block_eq(nb, av, bv));
                lemma_blocks_eq_push(r0, av, bv, nb);
            }
            r.push(nb);
            r
        }
    } else {
        let mut r = backtrack(a, b, dp, i - 1, j);
        proof {
            if j == 0 {
                assert(bv.take(0).len() == 0);
                assert(av.take(i as int).len() == i as int);
                assert(av.take(i as int - 1).len() == i as int - 1);
            } else {
                assert(av[i - 1] == a@[i - 1]@);
                assert(bv[j - 1] == b@[j - 1]@);
                lemma_lcs_step(av, bv, i as int, j as int);
            }
        }
        let rlen = r.len();
        let mut extend = false;
        let ghost r0 = r@;
        if rlen > 0 {
            if let DiffLines::Left(_) = r[rlen - 1] {
                extend = true;
            }
        }
        if extend {
            if let DiffLines::Left(lr) = r[rlen - 1] {
                proof {
                    lemma_covers_last(r0, 0, 0, i as int - 1, j as int);
                }
                let nb = DiffLines::Left(LineRange { start: lr.start, end: i });
                proof {
                    lemma_covers_extend(r0, 0, 0, i as int - 1, j as int, nb);
                    lemma_both_total_update_last(r0, nb);
                    lemma_merged_update_last(r0, nb);
                    assert(block_eq(nb, av, bv));
                    lemma_blocks_eq_update_last(r0, av, bv, nb);
                }
                r.set(rlen - 1, nb);
            }
            r
        } else {
            let nb = DiffLines::Left(LineRange { start: i - 1, end: i });
            proof {
                if r0.len() > 0 {
                    lemma_covers_last(r0, 0, 0, i as int - 1, j as int);
                }
                lemma_covers_push(r0, 0, 0, i as int - 1, j as int, nb, i as int, j as int);
                lemma_both_total_push(r0, nb);
                lemma_merged_push(r0, nb);
                assert(block_eq(nb, av, bv));
                lemma_blocks_eq_push(r0, av, bv, nb);
            }
            r.push(nb);
            r
        }
    }
}

/// Computes the line diff of two line sequences: an ordered, gap-free,
/// overlap-free partition of both sides into blocks whose `Both` runs
/// cover exactly a longest common subsequence of the two sides.
pub fn diff(a: &Vec<String>, b: &Vec<String>) -> (r: Vec<DiffLines>)
    requires
        a@.len() < usize::MAX,
        b@.len() < usize::MAX,
    ensures
        diff_post(lines_view(a@), lines_view(b@), r@),
{
    let ghost av = lines_view(a@);
    let ghost bv = lines_view(b@);
    let dp = lcs_table(a, b);
    let n = a.len();
    let m = b.len();
    let r = backtrack(a, b, &dp, n, m);
    proof {
        assert(av.take(n as int) =~= av);
        assert(bv.take(m as int) =~= bv);
    }
    r
}

} // verus!
