use vstd::prelude::*;
use crate::action::ActionView;
use crate::action::Event;
use crate::group::grouped;
use crate::group::groups_wf;
use crate::group::lemma_grouped_members_distinct;
use crate::group::lemma_grouped_wf;
use crate::group::members_distinct;
use crate::group::paths_distinct;
use crate::group::GroupView;
use crate::group::Record;
use crate::replacement::lemma_pending_within_group;
use crate::replacement::lemma_step_progress;
use crate::replacement::lemma_step_wf;
use crate::replacement::start;
use crate::replacement::GroupOutcome;
use crate::replacement::MemberOutcome;
use crate::replacement::ReplacerView;
use crate::replacement::Stage;
use crate::store::entry_path;
use crate::store::lemma_entry_path_injective;

verus! {

/// Where a run stands.
#[derive(Clone, Copy, Debug, PartialEq, Eq, Structural)]
pub enum Phase {
    /// Files are being discovered and grouped.
    Scanning,
    /// The store directory is being created.
    CreatingStore,
    /// A group is being replaced.
    Replacing,
    /// The run has ended: every group was worked on, or, in a dry run,
    /// the scan is complete.
    Finished,
    /// A file could not be read during the scan; the run was given up.
    ScanFailed,
    /// The store directory could not be created; the run was given up.
    StoreFailed,
}

/// The state of a run.
pub struct EngineView {
    pub root: Seq<char>,
    pub store_root: Seq<char>,
    pub dry_run: bool,
    pub phase: Phase,
    /// What the scan has discovered, in order.
    pub log: Seq<Record>,
    /// The replacements that have ended, one for each of the first groups.
    pub done: Seq<ReplacerView>,
    /// The replacement at work, for the group after those.
    pub job: Option<ReplacerView>,
}

impl EngineView {
    /// The groups that the discoveries form.
    pub open spec fn groups(self) -> Seq<GroupView> {
        grouped(self.log)
    }

    /// Whether `job` is a replacement of group `i` with this run's store.
    pub open spec fn serves(self, job: ReplacerView, i: int) -> bool {
        &&& job.wf()
        &&& job.store_root == self.store_root
        &&& job.hash == self.groups()[i].hash
        &&& job.members == self.groups()[i].members
    }

    /// The state after the discovery of the file at `path` with the
    /// fingerprint `hash`. Once the scan has ended nothing is taken in.
    pub open spec fn scanned(self, path: Seq<char>, hash: Seq<u8>) -> EngineView {
        if self.phase == Phase::Scanning {
            EngineView { log: self.log.push(Record { path: path, hash: hash }), ..self }
        } else {
            self
        }
    }

    /// The state after a file could not be read during the scan: the run is
    /// given up.
    pub open spec fn scan_failed(self) -> EngineView {
        if self.phase == Phase::Scanning {
            EngineView { phase: Phase::ScanFailed, ..self }
        } else {
            self
        }
    }

    /// The state after the scan has ended: a dry run is finished, any other
    /// goes on to create the store.
    pub open spec fn scan_finished(self) -> EngineView {
        if self.phase != Phase::Scanning {
            self
        } else if self.dry_run {
            EngineView { phase: Phase::Finished, ..self }
        } else {
            EngineView { phase: Phase::CreatingStore, ..self }
        }
    }

    /// Turns to the next group that has two files or more; groups of fewer
    /// are passed over, with a replacement that was done from the start.
    /// With no group left the run is finished.
    pub open spec fn next_job(self) -> EngineView
        decreases self.groups().len() - self.done.len(),
    {
        let i = self.done.len() as int;
        if i >= self.groups().len() {
            EngineView { phase: Phase::Finished, job: None, ..self }
        } else {
            let job = start(self.store_root, self.groups()[i].hash, self.groups()[i].members);
            if job.stage == Stage::Done {
                (EngineView { done: self.done.push(job), ..self }).next_job()
            } else {
                EngineView { phase: Phase::Replacing, job: Some(job), ..self }
            }
        }
    }

    /// The state after the caller has answered the pending action with
    /// `event`.
    pub open spec fn step(self, event: Event) -> EngineView {
        match self.phase {
            Phase::CreatingStore => if event is Succeeded {
                self.next_job()
            } else {
                EngineView { phase: Phase::StoreFailed, ..self }
            },
            Phase::Replacing => {
                let job = self.job.unwrap().step(event);
                if job.stage == Stage::Done {
                    (EngineView { done: self.done.push(job), job: None, ..self }).next_job()
                } else {
                    EngineView { job: Some(job), ..self }
                }
            },
            _ => self,
        }
    }

    /// What the caller is asked to do in this state.
    pub open spec fn pending(self) -> ActionView {
        match self.phase {
            Phase::Scanning => ActionView::Scan { root: self.root },
            Phase::CreatingStore => ActionView::CreateStore { path: self.store_root },
            Phase::Replacing => self.job.unwrap().pending(),
            _ => ActionView::Finished,
        }
    }

    /// Whether the run was given up or a group was not fully replaced.
    pub open spec fn failed(self) -> bool {
        self.phase == Phase::ScanFailed || self.phase == Phase::StoreFailed || exists|i: int|
            0 <= i < self.done.len() && (#[trigger] self.done[i]).verdict() is Failed
    }

    /// What holds of every state that a run can be in.
    pub open spec fn wf(self) -> bool {
        &&& self.dry_run ==> self.phase == Phase::Scanning || self.phase == Phase::Finished
            || self.phase == Phase::ScanFailed
        &&& self.done.len() <= self.groups().len()
        &&& self.phase != Phase::Replacing && self.phase != Phase::Finished ==> self.done.len()
            == 0
        &&& self.dry_run ==> self.done.len() == 0
        &&& self.phase == Phase::Finished && !self.dry_run ==> self.done.len()
            == self.groups().len()
        &&& forall|i: int|
            0 <= i < self.done.len() ==> self.serves(#[trigger] self.done[i], i) && self.done[i].stage
                == Stage::Done
        &&& self.phase == Phase::Replacing <==> self.job is Some
        &&& self.job matches Some(job) ==> self.done.len() < self.groups().len() && self.serves(
            job,
            self.done.len() as int,
        ) && job.stage != Stage::Done
    }
}

/// The state in which a run starts.
pub open spec fn begin(root: Seq<char>, store_root: Seq<char>, dry_run: bool) -> EngineView {
    EngineView {
        root: root,
        store_root: store_root,
        dry_run: dry_run,
        phase: Phase::Scanning,
        log: Seq::empty(),
        done: Seq::empty(),
        job: None,
    }
}

/// Turning to the next group keeps the state well formed and finds a group
/// to replace or the end of the run.
pub proof fn lemma_next_job(v: EngineView)
    requires
        !v.dry_run,
        v.done.len() <= v.groups().len(),
        forall|i: int|
            0 <= i < v.done.len() ==> v.serves(#[trigger] v.done[i], i) && v.done[i].stage
                == Stage::Done,
    ensures
        v.next_job().wf(),
        v.next_job().phase == Phase::Replacing || v.next_job().phase == Phase::Finished,
        v.next_job().log == v.log,
        v.next_job().root == v.root,
        v.next_job().store_root == v.store_root,
        v.next_job().dry_run == v.dry_run,
        v.next_job().done.len() >= v.done.len(),
        v.next_job().done.subrange(0, v.done.len() as int) == v.done,
        forall|i: int|
            v.done.len() <= i < v.next_job().done.len() ==> (#[trigger] v.next_job().done[i])
                == start(v.store_root, v.groups()[i].hash, v.groups()[i].members)
                && v.groups()[i].members.len() < 2,
    decreases v.groups().len() - v.done.len(),
{
    let i = v.done.len() as int;
    if i >= v.groups().len() {
        assert(v.next_job().done.subrange(0, i) =~= v.done);
    } else {
        let job = start(v.store_root, v.groups()[i].hash, v.groups()[i].members);
        if job.stage == Stage::Done {
            let next = EngineView { done: v.done.push(job), ..v };
            assert forall|k: int| 0 <= k < next.done.len() implies next.serves(
                #[trigger] next.done[k],
                k,
            ) && next.done[k].stage == Stage::Done by {
                if k < i {
                    assert(v.serves(v.done[k], k));
                }
            }
            lemma_next_job(next);
            let end = next.next_job();
            assert(end.done.subrange(0, i) =~= v.done) by {
                assert(end.done.subrange(0, i + 1) == next.done);
                assert forall|k: int| 0 <= k < i implies end.done.subrange(0, i)[k]
                    == v.done[k] by {
                    assert(end.done.subrange(0, i + 1)[k] == next.done[k]);
                }
            }
            assert forall|k: int| v.done.len() <= k < end.done.len() implies (
            #[trigger] end.done[k]) == start(
                v.store_root,
                v.groups()[k].hash,
                v.groups()[k].members,
            ) && v.groups()[k].members.len() < 2 by {
                if k == i {
                    assert(end.done.subrange(0, i + 1)[k] == next.done[k]);
                }
            }
        } else {
            assert(v.next_job().done.subrange(0, i) =~= v.done);
        }
    }
}

/// Every discovery, and the end of the scan, keeps the state well formed.
pub proof fn lemma_scan_wf(v: EngineView, path: Seq<char>, hash: Seq<u8>)
    requires
        v.wf(),
    ensures
        v.scanned(path, hash).wf(),
        v.scan_failed().wf(),
        v.scan_finished().wf(),
        begin(v.root, v.store_root, v.dry_run).wf(),
{
}

/// Every answer keeps the state well formed and leaves the discoveries and
/// the replacements that have ended as they were.
pub proof fn lemma_engine_step_wf(v: EngineView, event: Event)
    requires
        v.wf(),
    ensures
        v.step(event).wf(),
        v.step(event).log == v.log,
        v.step(event).store_root == v.store_root,
        v.step(event).dry_run == v.dry_run,
        v.step(event).done.len() >= v.done.len(),
        v.step(event).done.subrange(0, v.done.len() as int) == v.done,
{
    let n = v.done.len() as int;
    match v.phase {
        Phase::CreatingStore => {
            if event is Succeeded {
                lemma_next_job(v);
            } else {
                assert(v.done.subrange(0, n) =~= v.done);
            }
        },
        Phase::Replacing => {
            let before = v.job.unwrap();
            let job = before.step(event);
            lemma_step_wf(before, event);
            if job.stage == Stage::Done {
                let next = EngineView { done: v.done.push(job), job: None, ..v };
                assert forall|k: int| 0 <= k < next.done.len() implies next.serves(
                    #[trigger] next.done[k],
                    k,
                ) && next.done[k].stage == Stage::Done by {
                    if k < n {
                        assert(v.serves(v.done[k], k));
                    }
                }
                lemma_next_job(next);
                let end = next.next_job();
                assert(end.done.subrange(0, n) =~= v.done) by {
                    assert(end.done.subrange(0, n + 1) == next.done);
                    assert forall|k: int| 0 <= k < n implies end.done.subrange(0, n)[k]
                        == v.done[k] by {
                        assert(end.done.subrange(0, n + 1)[k] == next.done[k]);
                    }
                }
            } else {
                assert(v.done.subrange(0, n) =~= v.done);
            }
        },
        _ => {
            assert(v.done.subrange(0, n) =~= v.done);
        },
    }
}

/// A dry run changes nothing: it never asks for an action that changes the
/// file system, it replaces no group, and whatever it is told after the scan
/// it stays as it is.
pub proof fn lemma_dry_run_pure(v: EngineView, event: Event)
    requires
        v.wf(),
        v.dry_run,
    ensures
        !v.pending().mutates(),
        v.done.len() == 0,
        v.step(event) == v,
        v.scan_finished().pending() == ActionView::Finished || v.phase == Phase::ScanFailed,
{
}

/// A dry run reports the groups that a real run would act on: the groups
/// depend on the discoveries alone.
pub proof fn lemma_groups_ignore_dry_run(
    dry: EngineView,
    live: EngineView,
    path: Seq<char>,
    hash: Seq<u8>,
)
    requires
        dry.phase == Phase::Scanning,
        live.phase == Phase::Scanning,
        dry.log == live.log,
    ensures
        dry.scanned(path, hash).groups() == live.scanned(path, hash).groups(),
        dry.scan_finished().groups() == live.scan_finished().groups(),
        begin(dry.root, dry.store_root, true).groups() == begin(
            live.root,
            live.store_root,
            false,
        ).groups(),
{
}

/// What a run asks for stays within the group at work, which has two files
/// or more: the file that it takes away or puts a link at is a member of
/// that group.
pub proof fn lemma_touches_group_at_work(v: EngineView)
    requires
        v.wf(),
    ensures
        v.pending().touched() matches Some(path) ==> v.done.len() < v.groups().len()
            && v.groups()[v.done.len() as int].members.len() >= 2
            && v.groups()[v.done.len() as int].members.contains(path),
        v.pending() matches ActionView::MoveToStore { from, to } ==> to == entry_path(
            v.store_root,
            v.groups()[v.done.len() as int].hash,
        ) && from == v.groups()[v.done.len() as int].members[0],
{
    if v.phase == Phase::Replacing {
        lemma_pending_within_group(v.job.unwrap());
    }
}

/// A file whose content no other file shares is left alone: where no
/// location was discovered twice, a run never asks to move, remove or link
/// the one member of a group of one.
pub proof fn lemma_unique_untouched(v: EngineView, g: int)
    requires
        v.wf(),
        paths_distinct(v.log),
        0 <= g < v.groups().len(),
        v.groups()[g].members.len() == 1,
    ensures
        v.pending().touched() != Some(v.groups()[g].members[0]),
        g < v.done.len() ==> v.done[g].verdict() == GroupOutcome::SkippedUnique && v.done[g]
            == start(v.store_root, v.groups()[g].hash, v.groups()[g].members),
{
    lemma_grouped_members_distinct(v.log);
    lemma_touches_group_at_work(v);
    let groups = v.groups();
    let lone = groups[g].members[0];
    if v.pending().touched() == Some(lone) {
        let d = v.done.len() as int;
        let a = choose|a: int| 0 <= a < groups[d].members.len() && groups[d].members[a] == lone;
        assert(groups[d].members[a] == groups[g].members[0]);
        assert(members_distinct(groups));
        assert(d == g);
    }
    if g < v.done.len() {
        assert(v.serves(v.done[g], g));
        let r = v.done[g];
        assert(r.outcomes.len() == 1);
        assert(r.outcome_wf(0, r.outcomes[0]));
        assert(r.outcomes =~= Seq::new(1, |i: int| MemberOutcome::Untouched));
    }
}

/// The store holds at most one entry for each fingerprint of a run: two
/// groups never share a store entry, and the one move that a run may ask
/// for on behalf of a group goes to that group's entry.
pub proof fn lemma_one_entry_per_hash(v: EngineView, i: int, j: int)
    requires
        v.wf(),
        0 <= i < v.groups().len(),
        0 <= j < v.groups().len(),
        i != j,
    ensures
        v.groups()[i].hash != v.groups()[j].hash,
        entry_path(v.store_root, v.groups()[i].hash) != entry_path(
            v.store_root,
            v.groups()[j].hash,
        ),
{
    lemma_grouped_wf(v.log);
    assert(groups_wf(v.groups()));
    if entry_path(v.store_root, v.groups()[i].hash) == entry_path(
        v.store_root,
        v.groups()[j].hash,
    ) {
        lemma_entry_path_injective(v.store_root, v.groups()[i].hash, v.groups()[j].hash);
    }
}

/// Every answer during the replacement brings the run forward: either
/// another group is done with, or the work on the group at hand has come
/// further.
pub proof fn lemma_engine_progress(v: EngineView, event: Event)
    requires
        v.wf(),
        v.phase == Phase::Replacing,
    ensures
        v.step(event).done.len() > v.done.len() || (v.step(event).done.len() == v.done.len()
            && v.step(event).job is Some && v.step(event).job.unwrap().rank()
            > v.job.unwrap().rank()),
        v.step(event).done.len() <= v.groups().len(),
{
    lemma_engine_step_wf(v, event);
    lemma_step_progress(v.job.unwrap(), event);
    lemma_step_wf(v.job.unwrap(), event);
    let job = v.job.unwrap().step(event);
    if job.stage == Stage::Done {
        let next = EngineView { done: v.done.push(job), job: None, ..v };
        assert forall|k: int| 0 <= k < next.done.len() implies next.serves(
            #[trigger] next.done[k],
            k,
        ) && next.done[k].stage == Stage::Done by {
            if k < v.done.len() {
                assert(v.serves(v.done[k], k));
            }
        }
        lemma_next_job(next);
    }
}

/// A run over files that all differ in content changes no file: once the
/// store is there, every group is passed over and the run is finished. So
/// is a second run over a tree that a first has deduplicated, where each
/// content is left in one regular file.
pub proof fn lemma_run_of_unique_files(v: EngineView)
    requires
        v.wf(),
        v.phase == Phase::CreatingStore,
        forall|g: int| 0 <= g < v.groups().len() ==> (#[trigger] v.groups()[g]).members.len() < 2,
    ensures
        v.step(Event::Succeeded).phase == Phase::Finished,
        v.step(Event::Succeeded).pending() == ActionView::Finished,
        v.step(Event::Succeeded).done.len() == v.groups().len(),
        forall|g: int|
            0 <= g < v.groups().len() ==> (#[trigger] v.step(Event::Succeeded).done[g]).verdict()
                == GroupOutcome::SkippedUnique,
        !v.step(Event::Succeeded).failed(),
{
    lemma_next_job(v);
    let end = v.step(Event::Succeeded);
    assert(end == v.next_job());
    if end.phase == Phase::Replacing {
        let job = end.job.unwrap();
        let d = end.done.len() as int;
        assert(end.serves(job, d));
        assert(v.groups()[d].members.len() < 2);
    }
    assert forall|g: int| 0 <= g < v.groups().len() implies (#[trigger] end.done[g]).verdict()
        == GroupOutcome::SkippedUnique by {
        assert(end.serves(end.done[g], g));
        assert(v.groups()[g].members.len() < 2);
    }
}

} // verus!
