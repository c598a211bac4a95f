use vstd::prelude::*;
use crate::action::Action;
use crate::action::Event;
use crate::group::group_views;
use crate::group::DuplicateGroup;
use crate::group::Grouper;
use crate::hash::ContentHash;
use crate::replacement::lemma_step_wf;
use crate::replacement::GroupOutcome;
use crate::replacement::ReplacerView;
use crate::replacement::Stage;
use crate::replacer::Replacer;
use crate::run::begin;
use crate::run::lemma_engine_step_wf;
use crate::run::EngineView;
use crate::run::Phase;

verus! {

/// What a run works on: the tree to scan, the store, and whether anything
/// may be changed.
#[derive(Clone, Debug, PartialEq, Eq)]
pub struct Config {
    /// The file or directory to scan.
    pub root: String,
    /// The directory that holds the canonical copies.
    pub store_root: String,
    /// Whether the run only scans and reports.
    pub dry_run: bool,
}

/// The views of a sequence of replacers.
pub open spec fn replacer_views(replacers: Seq<Replacer>) -> Seq<ReplacerView> {
    replacers.map_values(|r: Replacer| r@)
}

/// Drives a run: takes in the discoveries of the scan, then asks for one
/// action at a time until every group of two or more files is replaced.
pub struct Engine {
    config: Config,
    phase: Phase,
    grouper: Grouper,
    done: Vec<Replacer>,
    job: Option<Replacer>,
}

impl View for Engine {
    type V = EngineView;

    closed spec fn view(&self) -> EngineView {
        EngineView {
            root: self.config.root@,
            store_root: self.config.store_root@,
            dry_run: self.config.dry_run,
            phase: self.phase,
            log: self.grouper.log(),
            done: replacer_views(self.done@),
            job: match self.job {
                Some(job) => Some(job@),
                None => None,
            },
        }
    }
}

impl Engine {
    /// The grouper and the replacers that the engine holds are well formed.
    pub closed spec fn parts_wf(&self) -> bool {
        &&& self.grouper.wf()
        &&& forall|i: int| 0 <= i < self.done.len() ==> (#[trigger] self.done[i]).wf()
        &&& self.job matches Some(job) ==> job.wf()
    }

    /// The engine is in a state that it can be in.
    pub open spec fn wf(&self) -> bool {
        self@.wf() && self.parts_wf()
    }

    /// Starts a run.
    pub fn new(config: Config) -> (fresh: Engine)
        ensures
            fresh.wf(),
            fresh@ == begin(config.root@, config.store_root@, config.dry_run),
    {
        let fresh = Engine {
            config,
            phase: Phase::Scanning,
            grouper: Grouper::new(),
            done: Vec::new(),
            job: None,
        };
        assert(fresh@.done =~= Seq::<ReplacerView>::empty());
        fresh
    }

    /// Where the run stands.
    pub fn phase(&self) -> (phase: Phase)
        ensures
            phase == self@.phase,
    {
        self.phase
    }

    /// Takes in the discovery of the file at `path` with the fingerprint
    /// `hash`. Returns whether it was taken in: after the scan has ended
    /// nothing is.
    pub fn record(&mut self, path: String, hash: ContentHash) -> (taken: bool)
        requires
            old(self).wf(),
        ensures
            final(self).wf(),
            final(self)@ == old(self)@.scanned(path@, hash@),
            taken == (old(self)@.phase == Phase::Scanning),
    {
        match self.phase {
            Phase::Scanning => {
                self.grouper.record(path, hash);
                true
            },
            _ => false,
        }
    }

    /// Takes in that a file could not be read during the scan: the run is
    /// given up.
    pub fn scan_failed(&mut self)
        requires
            old(self).wf(),
        ensures
            final(self).wf(),
            final(self)@ == old(self)@.scan_failed(),
    {
        match self.phase {
            Phase::Scanning => {
                self.phase = Phase::ScanFailed;
            },
            _ => {},
        }
    }

    /// Takes in that the scan has ended.
    pub fn finish_scan(&mut self)
        requires
            old(self).wf(),
        ensures
            final(self).wf(),
            final(self)@ == old(self)@.scan_finished(),
    {
        match self.phase {
            Phase::Scanning => {
                if self.config.dry_run {
                    self.phase = Phase::Finished;
                } else {
                    self.phase = Phase::CreatingStore;
                }
            },
            _ => {},
        }
    }

    /// The groups formed so far, in the order in which their fingerprints
    /// were first discovered.
    pub fn groups(&self) -> (groups: &Vec<DuplicateGroup>)
        requires
            self.wf(),
        ensures
            group_views(groups@) == self@.groups(),
    {
        proof {
            self.grouper.lemma_view();
        }
        self.grouper.groups()
    }

    /// The replacements that have ended, one for each of the first groups.
    pub fn reports(&self) -> (reports: &Vec<Replacer>)
        ensures
            replacer_views(reports@) == self@.done,
    {
        &self.done
    }

    /// What the caller is asked to do next.
    pub fn pending(&self) -> (action: Action)
        requires
            self.wf(),
        ensures
            action@ == self@.pending(),
    {
        match self.phase {
            Phase::Scanning => Action::Scan { root: self.config.root.clone() },
            Phase::CreatingStore => Action::CreateStore { path: self.config.store_root.clone() },
            Phase::Replacing => match &self.job {
                Some(job) => job.pending(),
                None => Action::Finished,
            },
            _ => Action::Finished,
        }
    }

    /// Turns to the next group that has two files or more.
    fn next_job(&mut self)
        requires
            old(self).parts_wf(),
            !old(self)@.dry_run,
            old(self)@.done.len() <= old(self)@.groups().len(),
            forall|i: int|
                0 <= i < old(self)@.done.len() ==> old(self)@.serves(
                    #[trigger] old(self)@.done[i],
                    i,
                ) && old(self)@.done[i].stage == Stage::Done,
        ensures
            final(self)@ == old(self)@.next_job(),
            final(self).parts_wf(),
    {
        let ghost begin = self@;
        proof {
            self.grouper.lemma_view();
        }
        loop
            invariant
                self.parts_wf(),
                self.grouper@ == self@.groups(),
                self@.done.len() <= self@.groups().len(),
                self@.next_job() == begin.next_job(),
            ensures
                self@ == begin.next_job(),
                self.parts_wf(),
            decreases self@.groups().len() - self@.done.len(),
        {
            let ghost here = self@;
            let i: usize = self.done.len();
            assert(here.done.len() == i);
            if i >= self.grouper.len() {
                self.phase = Phase::Finished;
                self.job = None;
                assert(self@ == here.next_job());
                break ;
            }
            let group = self.grouper.groups()[i].duplicate();
            assert(group@ == here.groups()[i as int]);
            let job = Replacer::new(group, self.config.store_root.as_str());
            if job.is_finished() {
                self.done.push(job);
                assert(self@.done =~= here.done.push(job@));
                assert(self@ == (EngineView { done: here.done.push(job@), ..here }));
            } else {
                self.job = Some(job);
                self.phase = Phase::Replacing;
                assert(self@ == here.next_job());
                break ;
            }
        }
    }

    /// Takes the caller's answer to the pending action.
    pub fn advance(&mut self, event: Event)
        requires
            old(self).wf(),
        ensures
            final(self).wf(),
            final(self)@ == old(self)@.step(event),
    {
        proof {
            lemma_engine_step_wf(self@, event);
        }
        let ghost before = self@;
        match self.phase {
            Phase::CreatingStore => match event {
                Event::Succeeded => {
                    self.next_job();
                },
                _ => {
                    self.phase = Phase::StoreFailed;
                },
            },
            Phase::Replacing => {
                let taken = self.job.take();
                match taken {
                    Some(mut job) => {
                        proof {
                            lemma_step_wf(job@, event);
                        }
                        job.advance(event);
                        if job.is_finished() {
                            self.done.push(job);
                            proof {
                                let next = EngineView {
                                    done: before.done.push(job@),
                                    job: None,
                                    ..before
                                };
                                assert(self@.done =~= before.done.push(job@));
                                assert(self@ == next);
                                assert forall|k: int| 0 <= k < next.done.len() implies next.serves(
                                    #[trigger] next.done[k],
                                    k,
                                ) && next.done[k].stage == Stage::Done by {
                                    if k < before.done.len() {
                                        assert(before.serves(before.done[k], k));
                                    }
                                }
                            }
                            self.next_job();
                        } else {
                            self.job = Some(job);
                        }
                    },
                    None => {},
                }
            },
            _ => {},
        }
    }

    /// The exit code of the run: zero where every group that was worked on
    /// is deduplicated, one where the run was given up or a group was not
    /// fully replaced.
    pub fn exit_code(&self) -> (code: u8)
        requires
            self.wf(),
        ensures
            code == if self@.failed() {
                1u8
            } else {
                0u8
            },
    {
        match self.phase {
            Phase::ScanFailed => {
                return 1;
            },
            Phase::StoreFailed => {
                return 1;
            },
            _ => {},
        }
        let mut i: usize = 0;
        while i < self.done.len()
            invariant
                i <= self.done.len(),
                self.phase != Phase::ScanFailed,
                self.phase != Phase::StoreFailed,
                forall|j: int| 0 <= j < i ==> !((#[trigger] self@.done[j]).verdict() is Failed),
            decreases self.done.len() - i,
        {
            match self.done[i].verdict() {
                GroupOutcome::Failed(_) => {
                    assert(self@.done[i as int].verdict() is Failed);
                    return 1;
                },
                _ => {},
            }
            i += 1;
        }
        0
    }
}

} // verus!
