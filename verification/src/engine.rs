//! The revision-guarded engine around the diff worker: buffers stamped
//! with revision counters, change detectors keyed on `(identity,
//! revision)`, the scheduler that captures snapshots into jobs, and the
//! result gate that publishes a completed diff to both view sinks only if
//! neither buffer's revision moved since dispatch.

use crate::diff::{diff, diff_post, lines_view, DiffLines};
use crate::lines::{spec_lines, split_lines};
use vstd::prelude::*;

verus! {

/// What a buffer shows: a file, a transient scratch buffer, or a
/// historical version of a file.
#[derive(Clone, Debug)]
pub enum DocContent {
    File(String),
    Local,
    History(String),
}

/// Whether two content descriptors name the same source.
pub open spec fn content_same(a: DocContent, b: DocContent) -> bool {
    match (a, b) {
        (DocContent::File(p), DocContent::File(q)) => p@ == q@,
        (DocContent::Local, DocContent::Local) => true,
        (DocContent::History(p), DocContent::History(q)) => p@ == q@,
        _ => false,
    }
}

fn content_eq(a: &DocContent, b: &DocContent) -> (r: bool)
    ensures
        r == content_same(*a, *b),
{
    match (a, b) {
        (DocContent::File(p), DocContent::File(q)) => p.eq(q),
        (DocContent::Local, DocContent::Local) => true,
        (DocContent::History(p), DocContent::History(q)) => p.eq(q),
        _ => false,
    }
}

fn clone_content(c: &DocContent) -> (r: DocContent)
    ensures
        r == *c,
{
    match c {
        DocContent::File(p) => DocContent::File(p.clone()),
        DocContent::Local => DocContent::Local,
        DocContent::History(p) => DocContent::History(p.clone()),
    }
}

fn clone_lines(v: &Vec<String>) -> (r: Vec<String>)
    ensures
        r@ == v@,
{
    let mut r: Vec<String> = Vec::new();
    let mut i: usize = 0;
    while i < v.len()
        invariant
            i <= v@.len(),
            r@ =~= v@.take(i as int),
        decreases v@.len() - i,
    {
        r.push(v[i].clone());
        proof {
            assert(r@ =~= v@.take(i + 1));
        }
        i += 1;
    }
    proof {
        assert(v@.take(v@.len() as int) =~= v@);
    }
    r
}

fn clone_blocks(v: &Vec<DiffLines>) -> (r: Vec<DiffLines>)
    ensures
        r@ == v@,
{
    let mut r: Vec<DiffLines> = Vec::new();
    let mut i: usize = 0;
    while i < v.len()
        invariant
            i <= v@.len(),
            r@ =~= v@.take(i as int),
        decreases v@.len() - i,
    {
        r.push(v[i]);
        proof {
            assert(r@ =~= v@.take(i + 1));
        }
        i += 1;
    }
    proof {
        assert(v@.take(v@.len() as int) =~= v@);
    }
    r
}

/// One editable text buffer: a content identity, the current text as
/// lines, and a revision counter bumped by exactly one on every edit.
pub struct Buffer {
    pub content: DocContent,
    pub lines: Vec<String>,
    pub revision: u64,
}

/// Whether two buffer states agree on identity, text and revision.
pub open spec fn buffer_same(a: Buffer, b: Buffer) -> bool {
    a.content == b.content && a.lines@ == b.lines@ && a.revision == b.revision
}

/// An immutable view of a buffer's text at a specific revision.  The
/// model owns its lines; sharing the underlying storage between snapshots
/// is an optimization of an embedding, not part of the protocol.
pub struct TextSnapshot {
    pub lines: Vec<String>,
    pub revision: u64,
}

impl Buffer {
    /// Opens a buffer for a content descriptor.  The text itself is
    /// loaded by a collaborator and applied as the first edit.
    pub fn new(content: DocContent) -> (b: Buffer)
        ensures
            b.content == content,
            b.lines@.len() == 0,
            b.revision == 0,
    {
        Buffer { content, lines: Vec::new(), revision: 0 }
    }

    /// Applies an edit: replaces the text and bumps the revision by
    /// exactly one before the new text becomes observable.
    pub fn edit(&mut self, lines: Vec<String>)
        requires
            old(self).revision < u64::MAX,
        ensures
            final(self).content == old(self).content,
            final(self).lines@ == lines@,
            final(self).revision == old(self).revision + 1,
    {
        self.lines = lines;
        self.revision = self.revision + 1;
    }

    /// Applies an edit given as raw text, split into lines.
    pub fn edit_text(&mut self, text: &str)
        requires
            old(self).revision < u64::MAX,
        ensures
            final(self).content == old(self).content,
            lines_view(final(self).lines@) == spec_lines(text@),
            final(self).revision == old(self).revision + 1,
    {
        let lines = split_lines(text);
        self.edit(lines);
    }

    /// Takes a snapshot: the current text paired atomically with the
    /// revision it belongs to.
    pub fn snapshot(&self) -> (s: TextSnapshot)
        ensures
            s.lines@ == self.lines@,
            s.revision == self.revision,
    {
        TextSnapshot { lines: clone_lines(&self.lines), revision: self.revision }
    }
}

/// Observes one side's `(identity, revision)` pair and fires only when
/// the pair differs from the one seen last; revisions that come and go
/// between observation ticks are coalesced away unseen.
pub struct ChangeDetector {
    pub last: Option<(DocContent, u64)>,
}

/// Whether the detector has already seen this `(identity, revision)` pair.
pub open spec fn detector_seen(d: ChangeDetector, c: DocContent, rev: u64) -> bool {
    match d.last {
        Option::None => false,
        Option::Some(p) => content_same(p.0, c) && p.1 == rev,
    }
}

impl ChangeDetector {
    /// A fresh detector: it fires on the first observation.
    pub fn new() -> (d: ChangeDetector)
        ensures
            d.last is None,
    {
        ChangeDetector { last: Option::None }
    }

    /// One observation tick: fires exactly when the pair is new, and
    /// remembers it either way.
    pub fn observe(&mut self, content: &DocContent, rev: u64) -> (fired: bool)
        ensures
            fired == !detector_seen(*old(self), *content, rev),
            detector_seen(*final(self), *content, rev),
    {
        let fired = match &self.last {
            Option::None => true,
            Option::Some(p) => !(content_eq(&p.0, content) && p.1 == rev),
        };
        if fired {
            self.last = Option::Some((clone_content(content), rev));
        }
        fired
    }
}

/// The published projection for one side of a diff view: which side this
/// is, and the shared block run.
#[derive(Clone, Debug)]
pub struct DiffInfo {
    pub is_right: bool,
    pub changes: Vec<DiffLines>,
}

/// What a view renders: an ordinary editor, or one side of a diff.
#[derive(Clone, Debug)]
pub enum EditorViewKind {
    Normal,
    Diff(DiffInfo),
}

/// A dispatched diff job: both snapshots, each carrying the revision
/// captured at dispatch time, used later as the validity token at the
/// result gate.
pub struct DiffJob {
    pub left: TextSnapshot,
    pub right: TextSnapshot,
}

/// The job captured both sides' text and revision at dispatch.
pub open spec fn job_captures(job: DiffJob, left: Buffer, right: Buffer) -> bool {
    &&& job.left.lines@ == left.lines@
    &&& job.left.revision == left.revision
    &&& job.right.lines@ == right.lines@
    &&& job.right.revision == right.revision
}

/// The persisted descriptor of a diff pairing: the two content
/// descriptors.  Results are never persisted; they are recomputed.
#[derive(Clone, Debug)]
pub struct DiffEditorInfo {
    pub left_content: DocContent,
    pub right_content: DocContent,
}

/// A live diff pairing: the two buffers, one change detector per side,
/// the last-dispatched revision pair, the two view sinks, and the last
/// accepted result.  `close` makes the pairing inert.
pub struct DiffEditorData {
    pub id: u64,
    pub editor_tab_id: u64,
    pub left: Buffer,
    pub right: Buffer,
    pub left_detector: ChangeDetector,
    pub right_detector: ChangeDetector,
    pub last_dispatched: Option<(u64, u64)>,
    pub last_accepted: Option<Vec<DiffLines>>,
    pub left_view: EditorViewKind,
    pub right_view: EditorViewKind,
    pub live: bool,
}

/// The result gate's acceptance test: the pairing is still live, the
/// worker returned a result, and both captured revisions still equal the
/// buffers' current revisions.
pub open spec fn gate_accepts(s: DiffEditorData, job: DiffJob, has_result: bool) -> bool {
    s.live && has_result && job.left.revision == s.left.revision && job.right.revision
        == s.right.revision
}

/// The view sink for one side shows this block run, tagged for that side.
pub open spec fn shows_diff(v: EditorViewKind, is_right: bool, changes: Seq<DiffLines>) -> bool {
    v matches EditorViewKind::Diff(d) && d.is_right == is_right && d.changes@ == changes
}

/// The state after the result gate publishes `changes`: both view sinks show the
/// same block run, tagged per side, the run is recorded as last accepted,
/// and everything else is unchanged.
pub open spec fn publish_to(s: DiffEditorData, changes: Seq<DiffLines>, t: DiffEditorData) -> bool {
    &&& t.left_view matches EditorViewKind::Diff(d) && !d.is_right && d.changes@ == changes
    &&& t.right_view matches EditorViewKind::Diff(d) && d.is_right && d.changes@ == changes
    &&& t.last_accepted matches Option::Some(c) && c@ == changes
    &&& buffer_same(t.left, s.left) && buffer_same(t.right, s.right)
    &&& t.left_detector == s.left_detector && t.right_detector == s.right_detector
    &&& t.last_dispatched == s.last_dispatched
    &&& t.id == s.id && t.editor_tab_id == s.editor_tab_id && t.live == s.live
}

impl DiffEditorInfo {
    /// Builds the live pairing this descriptor stands for: one buffer per
    /// side, fresh detectors (so the first poll dispatches an initial
    /// diff), plain views, and no dispatched or accepted result yet.
    pub fn to_data(&self, id: u64, editor_tab_id: u64) -> (d: DiffEditorData)
        ensures
            d.id == id,
            d.editor_tab_id == editor_tab_id,
            d.left.content == self.left_content,
            d.right.content == self.right_content,
            d.left.revision == 0 && d.left.lines@.len() == 0,
            d.right.revision == 0 && d.right.lines@.len() == 0,
            d.left_detector.last is None,
            d.right_detector.last is None,
            d.last_dispatched is None,
            d.last_accepted is None,
            d.left_view matches EditorViewKind::Normal,
            d.right_view matches EditorViewKind::Normal,
            d.live,
    {
        DiffEditorData {
            id,
            editor_tab_id,
            left: Buffer::new(clone_content(&self.left_content)),
            right: Buffer::new(clone_content(&self.right_content)),
            left_detector: ChangeDetector::new(),
            right_detector: ChangeDetector::new(),
            last_dispatched: Option::None,
            last_accepted: Option::None,
            left_view: EditorViewKind::Normal,
            right_view: EditorViewKind::Normal,
            live: true,
        }
    }
}

impl DiffEditorData {
    /// Creates a pairing over two already-open buffers.
    pub fn new(id: u64, editor_tab_id: u64, left: Buffer, right: Buffer) -> (d: DiffEditorData)
        ensures
            d.id == id,
            d.editor_tab_id == editor_tab_id,
            buffer_same(d.left, left),
            buffer_same(d.right, right),
            d.left_detector.last is None,
            d.right_detector.last is None,
            d.last_dispatched is None,
            d.last_accepted is None,
            d.left_view matches EditorViewKind::Normal,
            d.right_view matches EditorViewKind::Normal,
            d.live,
    {
        DiffEditorData {
            id,
            editor_tab_id,
            left,
            right,
            left_detector: ChangeDetector::new(),
            right_detector: ChangeDetector::new(),
            last_dispatched: Option::None,
            last_accepted: Option::None,
            left_view: EditorViewKind::Normal,
            right_view: EditorViewKind::Normal,
            live: true,
        }
    }

    /// The persistable descriptor for this pairing: both sides' content
    /// descriptors.
    pub fn diff_editor_info(&self) -> (info: DiffEditorInfo)
        ensures
            info.left_content == self.left.content,
            info.right_content == self.right.content,
    {
        DiffEditorInfo {
            left_content: clone_content(&self.left.content),
            right_content: clone_content(&self.right.content),
        }
    }

    /// An independent copy of this pairing under a new identifier, with
    /// fresh detectors and views, so the copy dispatches its own first
    /// diff.
    pub fn copy(&self, id: u64) -> (d: DiffEditorData)
        ensures
            d.id == id,
            d.editor_tab_id == self.editor_tab_id,
            buffer_same(d.left, self.left),
            buffer_same(d.right, self.right),
            d.left_detector.last is None,
            d.right_detector.last is None,
            d.last_dispatched is None,
            d.last_accepted is None,
            d.left_view matches EditorViewKind::Normal,
            d.right_view matches EditorViewKind::Normal,
            d.live,
    {
        DiffEditorData {
            id,
            editor_tab_id: self.editor_tab_id,
            left: Buffer {
                content: clone_content(&self.left.content),
                lines: clone_lines(&self.left.lines),
                revision: self.left.revision,
            },
            right: Buffer {
                content: clone_content(&self.right.content),
                lines: clone_lines(&self.right.lines),
                revision: self.right.revision,
            },
            left_detector: ChangeDetector::new(),
            right_detector: ChangeDetector::new(),
            last_dispatched: Option::None,
            last_accepted: Option::None,
            left_view: EditorViewKind::Normal,
            right_view: EditorViewKind::Normal,
            live: true,
        }
    }

    /// One scheduler tick: observes both change detectors and, if either
    /// fires, captures both sides' snapshots and revisions as a diff job
    /// and records the dispatched revision pair.  Dispatch is
    /// fire-and-forget: many jobs may be in flight, none is cancelled,
    /// and stale completions are rejected later at the result gate.
    pub fn poll_changes(&mut self) -> (job: Option<DiffJob>)
        requires
            old(self).live,
        ensures
            job is Some <==> !(detector_seen(
                old(self).left_detector,
                old(self).left.content,
                old(self).left.revision,
            ) && detector_seen(
                old(self).right_detector,
                old(self).right.content,
                old(self).right.revision,
            )),
            job matches Option::Some(j) ==> job_captures(j, old(self).left, old(self).right)
                && final(self).last_dispatched == Option::Some(
                (old(self).left.revision, old(self).right.revision),
            ),
            job is None ==> final(self).last_dispatched == old(self).last_dispatched,
            detector_seen(final(self).left_detector, old(self).left.content, old(self).left.revision),
            detector_seen(
                final(self).right_detector,
                old(self).right.content,
                old(self).right.revision,
            ),
            buffer_same(final(self).left, old(self).left),
            buffer_same(final(self).right, old(self).right),
            final(self).left_view == old(self).left_view,
            final(self).right_view == old(self).right_view,
            final(self).last_accepted == old(self).last_accepted,
            final(self).live == old(self).live,
            final(self).id == old(self).id,
            final(self).editor_tab_id == old(self).editor_tab_id,
    {
        let fired_left = self.left_detector.observe(&self.left.content, self.left.revision);
        let fired_right = self.right_detector.observe(&self.right.content, self.right.revision);
        if fired_left || fired_right {
            let job = DiffJob { left: self.left.snapshot(), right: self.right.snapshot() };
            self.last_dispatched = Option::Some((self.left.revision, self.right.revision));
            Option::Some(job)
        } else {
            Option::None
        }
    }

    /// The result gate: re-reads both sides' current revisions and
    /// publishes the completed diff to both view sinks only if the
    /// pairing is live and neither revision moved since dispatch;
    /// otherwise the completion is discarded with no effect.  A `None`
    /// result (a worker that aborted early) is likewise discarded.
    pub fn complete_job(&mut self, job: &DiffJob, result: Option<Vec<DiffLines>>) -> (accepted:
        bool)
        ensures
            accepted == gate_accepts(*old(self), *job, result is Some),
            !accepted ==> *final(self) == *old(self),
            accepted ==> (result matches Option::Some(changes) && publish_to(
                *old(self),
                changes@,
                *final(self),
            )),
    {
        let changes = match result {
            Option::Some(c) => c,
            Option::None => {
                return false;
            },
        };
        if !self.live {
            return false;
        }
        if job.left.revision != self.left.revision {
            return false;
        }
        if job.right.revision != self.right.revision {
            return false;
        }
        self.left_view = EditorViewKind::Diff(
            DiffInfo { is_right: false, changes: clone_blocks(&changes) },
        );
        self.right_view = EditorViewKind::Diff(
            DiffInfo { is_right: true, changes: clone_blocks(&changes) },
        );
        self.last_accepted = Option::Some(changes);
        true
    }

    /// One synchronous pass of the reactive loop this pairing drives:
    /// observe both sides and, if either changed, compute the diff of the
    /// current texts and publish it through the result gate.  Run synchronously,
    /// no edit can intervene between dispatch and completion, so a
    /// dispatched job is always accepted; the asynchronous embedding runs
    /// `poll_changes`, `run_diff_job` and `complete_job` separately.
    pub fn refresh(&mut self)
        requires
            old(self).live,
            old(self).left.lines@.len() < usize::MAX,
            old(self).right.lines@.len() < usize::MAX,
        ensures
            buffer_same(final(self).left, old(self).left),
            buffer_same(final(self).right, old(self).right),
            final(self).live,
            final(self).id == old(self).id,
            final(self).editor_tab_id == old(self).editor_tab_id,
            !(detector_seen(
                old(self).left_detector,
                old(self).left.content,
                old(self).left.revision,
            ) && detector_seen(
                old(self).right_detector,
                old(self).right.content,
                old(self).right.revision,
            )) ==> (final(self).last_accepted matches Option::Some(v) && diff_post(
                lines_view(old(self).left.lines@),
                lines_view(old(self).right.lines@),
                v@,
            ) && shows_diff(final(self).left_view, false, v@) && shows_diff(
                final(self).right_view,
                true,
                v@,
            )),
            (detector_seen(
                old(self).left_detector,
                old(self).left.content,
                old(self).left.revision,
            ) && detector_seen(
                old(self).right_detector,
                old(self).right.content,
                old(self).right.revision,
            )) ==> final(self).left_view == old(self).left_view && final(self).right_view == old(
                self,
            ).right_view && final(self).last_accepted == old(self).last_accepted,
    {
        let job_opt = self.poll_changes();
        match job_opt {
            Option::Some(job) => {
                let result = run_diff_job(&job, self.right.revision);
                let accepted = self.complete_job(&job, result);
                proof {
                    assert(accepted);
                }
            },
            Option::None => {},
        }
    }

    /// Tears the pairing down: a closed pairing dispatches nothing, and
    /// its gate discards every late completion; the views keep their last
    /// published state until the container replaces them.
    pub fn close(&mut self)
        ensures
            !final(self).live,
            final(self).left_view == old(self).left_view,
            final(self).right_view == old(self).right_view,
            final(self).last_accepted == old(self).last_accepted,
            final(self).last_dispatched == old(self).last_dispatched,
            buffer_same(final(self).left, old(self).left),
            buffer_same(final(self).right, old(self).right),
            final(self).id == old(self).id,
            final(self).editor_tab_id == old(self).editor_tab_id,
    {
        self.live = false;
    }
}

/// The diff worker over a dispatched job: computes the line diff of the
/// two captured snapshots.  It first re-reads the right side's current
/// revision (passed in by whoever runs the worker) and aborts with `None`
/// if the job is already stale — a cost-saving short-circuit only, since
/// the result gate re-validates every completion anyway.
pub fn run_diff_job(job: &DiffJob, current_right_rev: u64) -> (result: Option<Vec<DiffLines>>)
    requires
        job.left.lines@.len() < usize::MAX,
        job.right.lines@.len() < usize::MAX,
    ensures
        result is Some <==> current_right_rev == job.right.revision,
        result matches Option::Some(r) ==> diff_post(
            lines_view(job.left.lines@),
            lines_view(job.right.lines@),
            r@,
        ),
{
    if current_right_rev != job.right.revision {
        return Option::None;
    }
    Option::Some(diff(&job.left.lines, &job.right.lines))
}

/// Law: a completion whose captured revisions no longer both match the
/// buffers' current revisions is discarded by the result gate, whatever it
/// computed and whenever it arrives.
pub proof fn lemma_gate_discards_stale(s: DiffEditorData, job: DiffJob, has_result: bool)
    requires
        job.left.revision != s.left.revision || job.right.revision != s.right.revision,
    ensures
        !gate_accepts(s, job, has_result),
{
}

/// Law: whatever the completion order of in-flight jobs, only one whose
/// captured revisions equal the buffers' current revisions at gate time
/// is ever published; a pairing that was torn down publishes nothing.
pub proof fn lemma_publish_requires_current(s: DiffEditorData, job: DiffJob, has_result: bool)
    requires
        gate_accepts(s, job, has_result),
    ensures
        job.left.revision == s.left.revision,
        job.right.revision == s.right.revision,
        has_result,
        s.live,
{
}

} // verus!
