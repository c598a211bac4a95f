use vstd::prelude::*;
use vstd::string::StringExecFns;
use crate::action::Action;
use crate::action::Event;
use crate::group::texts;
use crate::group::DuplicateGroup;
use crate::paths::link_target;
use crate::replacement::first_error;
use crate::replacement::lemma_step_wf;
use crate::replacement::start;
use crate::replacement::Canonical;
use crate::replacement::GroupOutcome;
use crate::replacement::MemberOutcome;
use crate::replacement::MemberStep;
use crate::replacement::ReplaceError;
use crate::replacement::ReplacerView;
use crate::replacement::Stage;
use crate::store::path_for;

verus! {

/// Replaces the files of one group by links to the group's store entry,
/// one answered action at a time.
pub struct Replacer {
    group: DuplicateGroup,
    store_root: String,
    entry: String,
    stage: Stage,
    canonical: Canonical,
    outcomes: Vec<MemberOutcome>,
    failure: Option<ReplaceError>,
    target: String,
}

impl View for Replacer {
    type V = ReplacerView;

    closed spec fn view(&self) -> ReplacerView {
        ReplacerView {
            store_root: self.store_root@,
            hash: self.group.hash@,
            members: texts(self.group.members@),
            stage: self.stage,
            canonical: self.canonical,
            outcomes: self.outcomes@,
            failure: self.failure,
        }
    }
}

impl Replacer {
    /// The entry path and the link target that the replacer keeps at hand
    /// are those of its state.
    pub closed spec fn at_hand(&self) -> bool {
        &&& self.entry@ == self@.entry()
        &&& self@.at_member() ==> self@.target(self@.at()) == Some(self.target@)
    }

    /// The replacer is in a state that it can be in.
    pub open spec fn wf(&self) -> bool {
        self@.wf() && self.at_hand()
    }

    /// Starts the replacement of `group` with the store at `store_root`.
    pub fn new(group: DuplicateGroup, store_root: &str) -> (fresh: Replacer)
        ensures
            fresh.wf(),
            fresh@ == start(store_root@, group.hash@, texts(group.members@)),
    {
        let entry = path_for(store_root, &group.hash);
        let count: usize = group.members.len();
        let mut outcomes: Vec<MemberOutcome> = Vec::new();
        let mut stage = Stage::ProbeEntry;
        if count < 2 {
            stage = Stage::Done;
            while outcomes.len() < count
                invariant
                    outcomes.len() <= count,
                    forall|i: int|
                        0 <= i < outcomes.len() ==> #[trigger] outcomes[i]
                            == MemberOutcome::Untouched,
                decreases count - outcomes.len(),
            {
                outcomes.push(MemberOutcome::Untouched);
            }
        }
        let fresh = Replacer {
            group,
            store_root: String::from_str(store_root),
            entry,
            stage,
            canonical: Canonical::Unknown,
            outcomes,
            failure: None,
            target: String::new(),
        };
        proof {
            let model = start(store_root@, group.hash@, texts(group.members@));
            assert(fresh@.outcomes =~= model.outcomes);
            assert(fresh@ == model);
        }
        fresh
    }

    /// Whether nothing is left to do for the group.
    pub fn is_finished(&self) -> (finished: bool)
        ensures
            finished == (self@.stage == Stage::Done),
    {
        match self.stage {
            Stage::Done => true,
            _ => false,
        }
    }

    /// The group that is being replaced.
    pub fn group(&self) -> (group: &DuplicateGroup)
        ensures
            group.hash@ == self@.hash,
            texts(group.members@) == self@.members,
    {
        &self.group
    }

    /// What became of the members decided so far, first member first.
    pub fn outcomes(&self) -> (outcomes: &Vec<MemberOutcome>)
        ensures
            outcomes@ == self@.outcomes,
    {
        &self.outcomes
    }

    /// What is known of the group's store entry.
    pub fn canonical(&self) -> (canonical: Canonical)
        ensures
            canonical == self@.canonical,
    {
        self.canonical
    }

    /// The error that ended the work on the group, if one did.
    pub fn failure(&self) -> (failure: Option<ReplaceError>)
        ensures
            failure == self@.failure,
    {
        self.failure
    }

    /// What became of the group as a whole.
    pub fn verdict(&self) -> (outcome: GroupOutcome)
        ensures
            outcome == self@.verdict(),
    {
        if self.group.members.len() < 2 {
            return GroupOutcome::SkippedUnique;
        }
        if !self.is_finished() {
            return GroupOutcome::Pending;
        }
        match self.failure {
            Some(error) => {
                return GroupOutcome::Failed(error);
            },
            None => {},
        }
        let mut i: usize = 0;
        while i < self.outcomes.len()
            invariant
                i <= self.outcomes.len(),
                self.group.members.len() >= 2,
                self.stage == Stage::Done,
                self.failure is None,
                first_error(self.outcomes@, 0) == first_error(self.outcomes@, i as int),
            decreases self.outcomes.len() - i,
        {
            match self.outcomes[i] {
                MemberOutcome::NoRelativePath => {
                    return GroupOutcome::Failed(ReplaceError::NoRelativePath);
                },
                MemberOutcome::LinkIo => {
                    return GroupOutcome::Failed(ReplaceError::LinkIo);
                },
                MemberOutcome::IntegrityMismatch => {
                    return GroupOutcome::Failed(ReplaceError::IntegrityMismatch);
                },
                _ => {},
            }
            i += 1;
        }
        GroupOutcome::Deduplicated
    }

    /// How the member at place `i` is turned into a link.
    pub fn member_step(&self, i: usize) -> (step: MemberStep)
        ensures
            step == self@.member_step(i as int),
    {
        if i == 0 && self.canonical == Canonical::Moved {
            MemberStep::AlreadyMoved
        } else {
            MemberStep::StillPresent
        }
    }

    /// What the caller is asked to do next.
    pub fn pending(&self) -> (action: Action)
        requires
            self.wf(),
        ensures
            action@ == self@.pending(),
    {
        let at: usize = self.outcomes.len();
        match self.stage {
            Stage::ProbeEntry => Action::ProbeEntry { path: self.entry.clone() },
            Stage::MoveToStore => Action::MoveToStore {
                from: self.group.members[0].clone(),
                to: self.entry.clone(),
            },
            Stage::ProbeMember => Action::ProbeMember { path: self.group.members[at].clone() },
            Stage::RemoveMember => Action::RemoveMember { path: self.group.members[at].clone() },
            Stage::LinkMember => Action::LinkMember {
                target: self.target.clone(),
                link: self.group.members[at].clone(),
            },
            Stage::Rehash => Action::Rehash { path: self.group.members[at].clone() },
            Stage::Done => Action::Finished,
        }
    }

    /// Turns to the next member that can be linked.
    fn settle(&mut self)
        requires
            old(self).outcomes.len() <= old(self).group.members.len(),
            old(self).entry@ == old(self)@.entry(),
        ensures
            final(self)@ == old(self)@.settled(),
            final(self).at_hand(),
    {
        let ghost begin = self@;
        loop
            invariant
                self.outcomes.len() <= self.group.members.len(),
                self.entry@ == self@.entry(),
                self@.settled() == begin.settled(),
                begin == old(self)@,
            ensures
                self@ == begin.settled(),
                self.at_hand(),
            decreases self.group.members.len() - self.outcomes.len(),
        {
            let ghost here = self@;
            let at: usize = self.outcomes.len();
            if at >= self.group.members.len() {
                self.stage = Stage::Done;
                assert(self@ == here.with_stage(Stage::Done));
                break ;
            }
            assert(here.members[at as int] == self.group.members[at as int]@);
            match link_target(self.entry.as_str(), self.group.members[at].as_str()) {
                None => {
                    self.outcomes.push(MemberOutcome::NoRelativePath);
                    assert(self@ == here.decided(MemberOutcome::NoRelativePath));
                },
                Some(target) => {
                    self.target = target;
                    match self.member_step(at) {
                        MemberStep::AlreadyMoved => {
                            self.stage = Stage::LinkMember;
                            assert(self@ == here.with_stage(Stage::LinkMember));
                        },
                        MemberStep::StillPresent => {
                            self.stage = Stage::ProbeMember;
                            assert(self@ == here.with_stage(Stage::ProbeMember));
                        },
                    }
                    break ;
                },
            }
        }
    }

    /// Ends the work on the group with `error`.
    fn abort(&mut self, error: ReplaceError)
        requires
            old(self).outcomes.len() <= old(self).group.members.len(),
            old(self).entry@ == old(self)@.entry(),
        ensures
            final(self)@ == old(self)@.aborted(error),
            final(self).at_hand(),
    {
        let ghost begin = self@;
        self.stage = Stage::Done;
        self.failure = Some(error);
        let count: usize = self.group.members.len();
        let ghost decided = self.outcomes@;
        while self.outcomes.len() < count
            invariant
                count == self.group.members.len(),
                decided.len() <= self.outcomes.len() <= count,
                self.outcomes@.subrange(0, decided.len() as int) == decided,
                forall|i: int|
                    decided.len() <= i < self.outcomes.len() ==> #[trigger] self.outcomes[i]
                        == MemberOutcome::Untouched,
                self.stage == Stage::Done,
                self.failure == Some(error),
                self.store_root@ == begin.store_root,
                self.group.hash@ == begin.hash,
                texts(self.group.members@) == begin.members,
                self.canonical == begin.canonical,
                self.entry@ == begin.entry(),
            decreases count - self.outcomes.len(),
        {
            let ghost so_far = self.outcomes@;
            self.outcomes.push(MemberOutcome::Untouched);
            assert(self.outcomes@.subrange(0, decided.len() as int) =~= so_far.subrange(
                0,
                decided.len() as int,
            ));
        }
        proof {
            let end = begin.aborted(error);
            assert forall|i: int| 0 <= i < end.outcomes.len() implies self.outcomes[i]
                == end.outcomes[i] by {
                if i < decided.len() {
                    assert(self.outcomes@.subrange(0, decided.len() as int)[i] == decided[i]);
                }
            }
            assert(self.outcomes@ =~= end.outcomes);
        }
    }

    /// Takes the caller's answer to the pending action.
    pub fn advance(&mut self, event: Event)
        requires
            old(self).wf(),
        ensures
            final(self).wf(),
            final(self)@ == old(self)@.step(event),
    {
        proof {
            lemma_step_wf(self@, event);
        }
        match self.stage {
            Stage::ProbeEntry => match event {
                Event::Present => {
                    self.canonical = Canonical::Found;
                    self.settle();
                },
                Event::Absent => {
                    self.stage = Stage::MoveToStore;
                },
                _ => {
                    self.abort(ReplaceError::StoreIo);
                },
            },
            Stage::MoveToStore => match event {
                Event::Succeeded => {
                    self.canonical = Canonical::Moved;
                    self.settle();
                },
                _ => {
                    self.abort(ReplaceError::StoreIo);
                },
            },
            Stage::ProbeMember => match event {
                Event::Present => {
                    self.stage = Stage::RemoveMember;
                },
                Event::Absent => {
                    self.stage = Stage::LinkMember;
                },
                _ => {
                    self.outcomes.push(MemberOutcome::LinkIo);
                    self.settle();
                },
            },
            Stage::RemoveMember => match event {
                Event::Succeeded => {
                    self.stage = Stage::LinkMember;
                },
                _ => {
                    self.outcomes.push(MemberOutcome::LinkIo);
                    self.settle();
                },
            },
            Stage::LinkMember => match event {
                Event::Succeeded => {
                    self.stage = Stage::Rehash;
                },
                _ => {
                    self.outcomes.push(MemberOutcome::LinkIo);
                    self.settle();
                },
            },
            Stage::Rehash => {
                let verified = match event {
                    Event::Hashed(hash) => hash == self.group.hash,
                    _ => false,
                };
                if verified {
                    self.outcomes.push(MemberOutcome::Linked);
                    self.settle();
                } else {
                    self.outcomes.push(MemberOutcome::IntegrityMismatch);
                    self.abort(ReplaceError::IntegrityMismatch);
                }
            },
            Stage::Done => {},
        }
    }
}

} // verus!
