use diff_engine::diff::{DiffLines, LineRange};
use diff_engine::engine::{
    run_diff_job, Buffer, ChangeDetector, DiffEditorData, DiffEditorInfo, DocContent,
    EditorViewKind,
};
use diff_engine::lines::split_lines;

fn local_pairing() -> DiffEditorData {
    let info = DiffEditorInfo {
        left_content: DocContent::Local,
        right_content: DocContent::Local,
    };
    info.to_data(1, 1)
}

fn shown_changes(view: &EditorViewKind) -> Option<&Vec<DiffLines>> {
    match view {
        EditorViewKind::Diff(d) => Some(&d.changes),
        EditorViewKind::Normal => None,
    }
}

#[test]
fn revision_bump_between_dispatch_and_gate_discards() {
    // Dispatch a job, bump the left buffer's revision before the result gate
    // runs: the completion must be discarded with no view-sink mutation.
    let mut d = local_pairing();
    d.left.edit(split_lines("a\n"));
    let job = d.poll_changes().expect("first poll dispatches");
    d.left.edit(split_lines("b\n"));
    let result = run_diff_job(&job, d.right.revision);
    assert!(result.is_some());
    let accepted = d.complete_job(&job, result);
    assert!(!accepted);
    assert!(matches!(d.left_view, EditorViewKind::Normal));
    assert!(matches!(d.right_view, EditorViewKind::Normal));
    assert!(d.last_accepted.is_none());
}

#[test]
fn only_final_revisions_publish_whatever_the_order() {
    // Rapid successive edits give revisions r1 < r2 < r3, each with a
    // dispatched job; whatever the completion order, only the job whose
    // captured revisions match the final current revisions publishes.
    let mut d = local_pairing();
    d.left.edit(split_lines("1\n"));
    let j1 = d.poll_changes().expect("dispatch at r1");
    d.left.edit(split_lines("2\n"));
    let j2 = d.poll_changes().expect("dispatch at r2");
    d.left.edit(split_lines("3\n"));
    let j3 = d.poll_changes().expect("dispatch at r3");

    let r1 = run_diff_job(&j1, d.right.revision);
    let r2 = run_diff_job(&j2, d.right.revision);
    let r3 = run_diff_job(&j3, d.right.revision);

    // Completion order: oldest, newest, middle, oldest again.
    assert!(!d.complete_job(&j1, r1));
    assert!(d.complete_job(&j3, r3));
    assert!(!d.complete_job(&j2, r2));
    let r1_again = run_diff_job(&j1, d.right.revision);
    assert!(!d.complete_job(&j1, r1_again));

    // The published result is the diff of "3\n" against the empty right.
    let expect = vec![DiffLines::Left(LineRange { start: 0, end: 1 })];
    assert_eq!(shown_changes(&d.left_view), Some(&expect));
    assert_eq!(shown_changes(&d.right_view), Some(&expect));
}

#[test]
fn stale_job_cannot_overwrite_newer_published_result() {
    // Dispatch, then mutate the left buffer; a newer job is published
    // first, and the stale job's late completion must not overwrite it.
    let mut d = local_pairing();
    d.left.edit(split_lines("old\n"));
    let stale_job = d.poll_changes().expect("dispatch before the edit");
    let stale_result = run_diff_job(&stale_job, d.right.revision);

    d.left.edit(split_lines("new\n"));
    let fresh_job = d.poll_changes().expect("dispatch after the edit");
    let fresh_result = run_diff_job(&fresh_job, d.right.revision);
    assert!(d.complete_job(&fresh_job, fresh_result));
    let published = shown_changes(&d.left_view).cloned();

    assert!(!d.complete_job(&stale_job, stale_result));
    assert_eq!(shown_changes(&d.left_view).cloned(), published);
    assert_eq!(shown_changes(&d.right_view).cloned(), published);
}

#[test]
fn accepted_result_is_published_to_both_sides() {
    let mut d = local_pairing();
    d.left.edit(split_lines("a\nb\nc\n"));
    d.right.edit(split_lines("a\nx\nc\n"));
    let job = d.poll_changes().expect("dispatch");
    let result = run_diff_job(&job, d.right.revision);
    assert!(d.complete_job(&job, result));
    match (&d.left_view, &d.right_view) {
        (EditorViewKind::Diff(l), EditorViewKind::Diff(r)) => {
            assert!(!l.is_right);
            assert!(r.is_right);
            assert_eq!(l.changes, r.changes);
            assert_eq!(
                l.changes,
                vec![
                    DiffLines::Both(
                        LineRange { start: 0, end: 1 },
                        LineRange { start: 0, end: 1 }
                    ),
                    DiffLines::Left(LineRange { start: 1, end: 2 }),
                    DiffLines::Right(LineRange { start: 1, end: 2 }),
                    DiffLines::Both(
                        LineRange { start: 2, end: 3 },
                        LineRange { start: 2, end: 3 }
                    ),
                ]
            );
        }
        _ => panic!("both views must show the diff"),
    }
    assert!(d.last_accepted.is_some());
}

#[test]
fn worker_aborts_on_stale_right_revision() {
    // The cooperative check: a worker given a right revision other than
    // the one captured returns no result, and the result gate discards `None`.
    let mut d = local_pairing();
    d.left.edit(split_lines("a\n"));
    let job = d.poll_changes().expect("dispatch");
    let aborted = run_diff_job(&job, d.right.revision + 1);
    assert!(aborted.is_none());
    assert!(!d.complete_job(&job, aborted));
    assert!(matches!(d.left_view, EditorViewKind::Normal));
}

#[test]
fn closed_pairing_discards_late_completions() {
    let mut d = local_pairing();
    d.left.edit(split_lines("a\n"));
    let job = d.poll_changes().expect("dispatch");
    let result = run_diff_job(&job, d.right.revision);
    d.close();
    assert!(!d.complete_job(&job, result));
    assert!(matches!(d.left_view, EditorViewKind::Normal));
}

#[test]
fn refresh_publishes_synchronously() {
    let mut d = local_pairing();
    d.left.edit(split_lines("a\n"));
    d.right.edit(split_lines("a\n"));
    d.refresh();
    let expect = vec![DiffLines::Both(
        LineRange { start: 0, end: 1 },
        LineRange { start: 0, end: 1 },
    )];
    assert_eq!(shown_changes(&d.left_view), Some(&expect));
    assert_eq!(shown_changes(&d.right_view), Some(&expect));
}

#[test]
fn detector_fires_only_on_new_pairs() {
    let mut det = ChangeDetector::new();
    assert!(det.observe(&DocContent::Local, 5));
    // Same (identity, revision) pair again: no fire.
    assert!(!det.observe(&DocContent::Local, 5));
    // Revision advanced (possibly past unobserved intermediates): fires.
    assert!(det.observe(&DocContent::Local, 7));
    // Identity changed at the same revision: fires.
    assert!(det.observe(&DocContent::File("a".to_string()), 7));
    assert!(!det.observe(&DocContent::File("a".to_string()), 7));
}

#[test]
fn edit_bumps_revision_by_exactly_one() {
    let mut b = Buffer::new(DocContent::Local);
    assert_eq!(b.revision, 0);
    b.edit_text("a\nb");
    assert_eq!(b.revision, 1);
    assert_eq!(b.lines, vec!["a", "b"]);
    b.edit(vec!["c".to_string()]);
    assert_eq!(b.revision, 2);
}

#[test]
fn snapshot_pairs_text_with_revision() {
    let mut b = Buffer::new(DocContent::Local);
    b.edit_text("a\n");
    let s = b.snapshot();
    assert_eq!(s.revision, b.revision);
    assert_eq!(s.lines, b.lines);
    // Later edits do not touch the snapshot.
    b.edit_text("b\n");
    assert_eq!(s.lines, vec!["a"]);
    assert_eq!(s.revision, 1);
}

#[test]
fn info_round_trip_keeps_both_contents() {
    let left = Buffer::new(DocContent::File("left.txt".to_string()));
    let right = Buffer::new(DocContent::File("right.txt".to_string()));
    let d = DiffEditorData::new(3, 4, left, right);
    let info = d.diff_editor_info();
    assert!(matches!(&info.left_content, DocContent::File(p) if p == "left.txt"));
    assert!(matches!(&info.right_content, DocContent::File(p) if p == "right.txt"));
    let d2 = info.to_data(5, 4);
    assert_eq!(d2.id, 5);
    assert!(matches!(&d2.right.content, DocContent::File(p) if p == "right.txt"));
}

#[test]
fn copy_gets_new_id_and_fresh_views() {
    let mut d = local_pairing();
    d.left.edit(split_lines("a\n"));
    d.refresh();
    let c = d.copy(9);
    assert_eq!(c.id, 9);
    assert_eq!(c.left.revision, d.left.revision);
    assert_eq!(c.left.lines, d.left.lines);
    // The copy re-listens from scratch: fresh views and detectors.
    assert!(matches!(c.left_view, EditorViewKind::Normal));
    assert!(c.last_accepted.is_none());
}
