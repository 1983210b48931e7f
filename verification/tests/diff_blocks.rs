use diff_engine::diff::{diff, DiffLines, LineRange};
use diff_engine::lines::split_lines;

fn lr(start: usize, end: usize) -> LineRange {
    LineRange { start, end }
}

fn lines_of(text: &str) -> Vec<String> {
    split_lines(text)
}

#[test]
fn diff_one_changed_line() {
    // left = "a\nb\nc\n", right = "a\nx\nc\n": line 1 changed on both
    // sides, lines 0 and 2 unchanged.
    let a = lines_of("a\nb\nc\n");
    let b = lines_of("a\nx\nc\n");
    let d = diff(&a, &b);
    assert_eq!(
        d,
        vec![
            DiffLines::Both(lr(0, 1), lr(0, 1)),
            DiffLines::Left(lr(1, 2)),
            DiffLines::Right(lr(1, 2)),
            DiffLines::Both(lr(2, 3), lr(2, 3)),
        ]
    );
}

#[test]
fn diff_empty_against_one_line() {
    // left = "", right = "new\n": a single all-Right block covering
    // right's one line, and no Both block.
    let a = lines_of("");
    let b = lines_of("new\n");
    let d = diff(&a, &b);
    assert_eq!(d, vec![DiffLines::Right(lr(0, 1))]);
}

#[test]
fn diff_self_single_both_block() {
    let a = lines_of("a\nb\nc\n");
    let d = diff(&a, &a);
    assert_eq!(d, vec![DiffLines::Both(lr(0, 3), lr(0, 3))]);
}

#[test]
fn diff_both_empty() {
    let a = lines_of("");
    let d = diff(&a, &a);
    assert_eq!(d, vec![]);
}

#[test]
fn diff_pure_insertion_keeps_common_lines() {
    let a = lines_of("a\nc\n");
    let b = lines_of("a\nb\nc\n");
    let d = diff(&a, &b);
    assert_eq!(
        d,
        vec![
            DiffLines::Both(lr(0, 1), lr(0, 1)),
            DiffLines::Right(lr(1, 2)),
            DiffLines::Both(lr(1, 2), lr(2, 3)),
        ]
    );
}

#[test]
fn diff_pure_deletion_keeps_common_lines() {
    let a = lines_of("a\nb\nc\n");
    let b = lines_of("a\nc\n");
    let d = diff(&a, &b);
    assert_eq!(
        d,
        vec![
            DiffLines::Both(lr(0, 1), lr(0, 1)),
            DiffLines::Left(lr(1, 2)),
            DiffLines::Both(lr(2, 3), lr(1, 2)),
        ]
    );
}

#[test]
fn diff_finds_interior_common_line() {
    // The common line "a" sits between changed lines on both sides.
    let a = lines_of("x\na\ny\n");
    let b = lines_of("a\n");
    let d = diff(&a, &b);
    assert_eq!(
        d,
        vec![
            DiffLines::Left(lr(0, 1)),
            DiffLines::Both(lr(1, 2), lr(0, 1)),
            DiffLines::Left(lr(2, 3)),
        ]
    );
}

fn mirror_block(x: &DiffLines) -> DiffLines {
    match *x {
        DiffLines::Left(r) => DiffLines::Right(r),
        DiffLines::Right(r) => DiffLines::Left(r),
        DiffLines::Both(l, r) => DiffLines::Both(r, l),
    }
}

#[test]
fn diff_mirror_between_orientations() {
    // Each orientation's diff carries the same blocks as the mirror of
    // the other's; only the order of the two one-sided blocks inside a
    // changed region may differ between orientations.
    let a = lines_of("a\nb\nc\n");
    let b = lines_of("a\nx\nc\n");
    let d_ab = diff(&a, &b);
    let d_ba = diff(&b, &a);
    let mirrored: Vec<DiffLines> = d_ab.iter().map(mirror_block).collect();
    assert_eq!(d_ba.len(), mirrored.len());
    for blk in &mirrored {
        assert!(d_ba.contains(blk));
    }
    for blk in &d_ba {
        assert!(mirrored.contains(blk));
    }
}

// Walks the blocks and checks the partition property on concrete values:
// contiguous, gap-free, overlap-free coverage of both sides.
fn assert_partition(d: &[DiffLines], left_count: usize, right_count: usize) {
    let mut i = 0;
    let mut j = 0;
    for blk in d {
        match *blk {
            DiffLines::Left(r) => {
                assert_eq!(r.start, i);
                assert!(r.start < r.end);
                i = r.end;
            }
            DiffLines::Right(r) => {
                assert_eq!(r.start, j);
                assert!(r.start < r.end);
                j = r.end;
            }
            DiffLines::Both(l, r) => {
                assert_eq!(l.start, i);
                assert_eq!(r.start, j);
                assert!(l.start < l.end);
                assert_eq!(l.end - l.start, r.end - r.start);
                i = l.end;
                j = r.end;
            }
        }
    }
    assert_eq!(i, left_count);
    assert_eq!(j, right_count);
}

#[test]
fn diff_partitions_both_sides() {
    let cases = [
        ("a\nb\nc\n", "a\nx\nc\n"),
        ("", "new\n"),
        ("x\na\ny\n", "a\n"),
        ("one\ntwo\n", "three\nfour\nfive\n"),
        ("same\nsame\n", "same\nsame\n"),
    ];
    for (l, r) in cases {
        let a = lines_of(l);
        let b = lines_of(r);
        let d = diff(&a, &b);
        assert_partition(&d, a.len(), b.len());
    }
}

#[test]
fn diff_merges_adjacent_blocks() {
    // Two left lines in a row come out as one Left block.
    let a = lines_of("p\nq\nr\ns\n");
    let b = lines_of("p\ns\n");
    let d = diff(&a, &b);
    assert_eq!(
        d,
        vec![
            DiffLines::Both(lr(0, 1), lr(0, 1)),
            DiffLines::Left(lr(1, 3)),
            DiffLines::Both(lr(3, 4), lr(1, 2)),
        ]
    );
}
