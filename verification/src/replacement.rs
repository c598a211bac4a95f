use vstd::prelude::*;
use crate::action::ActionView;
use crate::action::Event;
use crate::paths::link_target_of;
use crate::store::entry_path;

verus! {

/// Why a group, or one file of it, could not be replaced.
#[derive(Clone, Copy, Debug, PartialEq, Eq, Structural)]
pub enum ReplaceError {
    /// The store entry could not be looked for, or the canonical source
    /// could not be moved into the store. Ends the work on the group.
    StoreIo,
    /// No relative path leads from the file's directory to the store entry.
    /// Concerns that file only.
    NoRelativePath,
    /// The file could not be looked for or removed, or its link could not be
    /// created. Concerns that file only.
    LinkIo,
    /// Reading through the new link did not give the group's fingerprint:
    /// another was found, or nothing could be read. Ends the work on the
    /// group.
    IntegrityMismatch,
}

/// What became of one member of a group.
#[derive(Clone, Copy, Debug, PartialEq, Eq, Structural)]
pub enum MemberOutcome {
    /// The location now holds a link to the store entry, and reading
    /// through it gave the group's fingerprint.
    Linked,
    /// See [`ReplaceError::NoRelativePath`].
    NoRelativePath,
    /// See [`ReplaceError::LinkIo`].
    LinkIo,
    /// See [`ReplaceError::IntegrityMismatch`].
    IntegrityMismatch,
    /// Nothing was asked for at this location.
    Untouched,
}

/// How a member is turned into a link.
#[derive(Clone, Copy, Debug, PartialEq, Eq, Structural)]
pub enum MemberStep {
    /// The member's file was moved into the store: nothing is left to
    /// remove, only the link is created.
    AlreadyMoved,
    /// The member's file may still be there: it is removed if it is, then
    /// the link is created.
    StillPresent,
}

/// What is known of the store entry of a group.
#[derive(Clone, Copy, Debug, PartialEq, Eq, Structural)]
pub enum Canonical {
    /// Nothing yet.
    Unknown,
    /// The entry was in the store before this group was worked on.
    Found,
    /// The canonical source was moved into the store.
    Moved,
}

/// Which answer the replacer is waiting for.
#[derive(Clone, Copy, Debug, PartialEq, Eq, Structural)]
pub enum Stage {
    ProbeEntry,
    MoveToStore,
    ProbeMember,
    RemoveMember,
    LinkMember,
    Rehash,
    Done,
}

/// The state of the replacement of one group.
pub struct ReplacerView {
    pub store_root: Seq<char>,
    pub hash: Seq<u8>,
    pub members: Seq<Seq<char>>,
    pub stage: Stage,
    pub canonical: Canonical,
    /// What became of the members decided so far, first member first. The
    /// member at work is the one after them.
    pub outcomes: Seq<MemberOutcome>,
    /// The error that ended the work on the group, if one did.
    pub failure: Option<ReplaceError>,
}

impl ReplacerView {
    /// The path of the group's store entry.
    pub open spec fn entry(self) -> Seq<char> {
        entry_path(self.store_root, self.hash)
    }

    /// The place of the member at work.
    pub open spec fn at(self) -> int {
        self.outcomes.len() as int
    }

    /// What a link at member `i` must hold.
    pub open spec fn target(self, i: int) -> Option<Seq<char>> {
        link_target_of(self.entry(), self.members[i])
    }

    /// Whether the replacer waits for an answer about the member at work.
    pub open spec fn at_member(self) -> bool {
        self.stage == Stage::ProbeMember || self.stage == Stage::RemoveMember || self.stage
            == Stage::LinkMember || self.stage == Stage::Rehash
    }

    /// How member `i` is turned into a link.
    pub open spec fn member_step(self, i: int) -> MemberStep {
        if i == 0 && self.canonical == Canonical::Moved {
            MemberStep::AlreadyMoved
        } else {
            MemberStep::StillPresent
        }
    }

    /// The same state with another stage.
    pub open spec fn with_stage(self, stage: Stage) -> ReplacerView {
        ReplacerView { stage: stage, ..self }
    }

    /// The same state with what is now known of the store entry.
    pub open spec fn with_canonical(self, canonical: Canonical) -> ReplacerView {
        ReplacerView { canonical: canonical, ..self }
    }

    /// The same state with the member at work decided.
    pub open spec fn decided(self, outcome: MemberOutcome) -> ReplacerView {
        ReplacerView { outcomes: self.outcomes.push(outcome), ..self }
    }

    /// The work on the group ends with `error`: the members not yet decided
    /// stay untouched.
    pub open spec fn aborted(self, error: ReplaceError) -> ReplacerView {
        ReplacerView {
            stage: Stage::Done,
            failure: Some(error),
            outcomes: self.outcomes + Seq::new(
                (self.members.len() - self.outcomes.len()) as nat,
                |i: int| MemberOutcome::Untouched,
            ),
            ..self
        }
    }

    /// Turns to the next member that can be linked: members from which no
    /// relative path leads to the store entry are decided as such and
    /// passed over. With no member left the work is done.
    pub open spec fn settled(self) -> ReplacerView
        decreases self.members.len() - self.outcomes.len(),
    {
        if self.at() >= self.members.len() {
            self.with_stage(Stage::Done)
        } else if self.target(self.at()) is None {
            self.decided(MemberOutcome::NoRelativePath).settled()
        } else if self.member_step(self.at()) == MemberStep::AlreadyMoved {
            self.with_stage(Stage::LinkMember)
        } else {
            self.with_stage(Stage::ProbeMember)
        }
    }

    /// The state after the caller has answered the pending action with
    /// `event`. An event that is no answer to the action counts as its
    /// failure.
    pub open spec fn step(self, event: Event) -> ReplacerView {
        match self.stage {
            Stage::ProbeEntry => match event {
                Event::Present => self.with_canonical(Canonical::Found).settled(),
                Event::Absent => self.with_stage(Stage::MoveToStore),
                _ => self.aborted(ReplaceError::StoreIo),
            },
            Stage::MoveToStore => match event {
                Event::Succeeded => self.with_canonical(Canonical::Moved).settled(),
                _ => self.aborted(ReplaceError::StoreIo),
            },
            Stage::ProbeMember => match event {
                Event::Present => self.with_stage(Stage::RemoveMember),
                Event::Absent => self.with_stage(Stage::LinkMember),
                _ => self.decided(MemberOutcome::LinkIo).settled(),
            },
            Stage::RemoveMember => match event {
                Event::Succeeded => self.with_stage(Stage::LinkMember),
                _ => self.decided(MemberOutcome::LinkIo).settled(),
            },
            Stage::LinkMember => match event {
                Event::Succeeded => self.with_stage(Stage::Rehash),
                _ => self.decided(MemberOutcome::LinkIo).settled(),
            },
            Stage::Rehash => if event matches Event::Hashed(hash) && hash@ == self.hash {
                self.decided(MemberOutcome::Linked).settled()
            } else {
                self.decided(MemberOutcome::IntegrityMismatch).aborted(
                    ReplaceError::IntegrityMismatch,
                )
            },
            Stage::Done => self,
        }
    }

    /// What the caller is asked to do in this state.
    pub open spec fn pending(self) -> ActionView {
        match self.stage {
            Stage::ProbeEntry => ActionView::ProbeEntry { path: self.entry() },
            Stage::MoveToStore => ActionView::MoveToStore {
                from: self.members[0],
                to: self.entry(),
            },
            Stage::ProbeMember => ActionView::ProbeMember { path: self.members[self.at()] },
            Stage::RemoveMember => ActionView::RemoveMember { path: self.members[self.at()] },
            Stage::LinkMember => ActionView::LinkMember {
                target: self.target(self.at()).unwrap(),
                link: self.members[self.at()],
            },
            Stage::Rehash => ActionView::Rehash { path: self.members[self.at()] },
            Stage::Done => ActionView::Finished,
        }
    }

    /// What holds of every state that a replacer can be in.
    pub open spec fn wf(self) -> bool {
        &&& self.outcomes.len() <= self.members.len()
        &&& self.stage == Stage::Done ==> self.outcomes.len() == self.members.len()
        &&& self.stage != Stage::Done ==> self.members.len() >= 2 && self.failure is None
        &&& (self.stage == Stage::ProbeEntry || self.stage == Stage::MoveToStore)
            ==> self.outcomes.len() == 0 && self.canonical == Canonical::Unknown
        &&& self.at_member() ==> self.at() < self.members.len() && self.target(self.at()) is Some
            && self.canonical != Canonical::Unknown
        &&& (self.stage == Stage::ProbeMember || self.stage == Stage::RemoveMember)
            ==> self.member_step(self.at()) == MemberStep::StillPresent
        &&& self.members.len() < 2 ==> self.canonical == Canonical::Unknown && self.failure
            is None
        &&& self.failure matches Some(error) ==> self.failure_wf(error)
        &&& forall|i: int|
            0 <= i < self.outcomes.len() ==> self.outcome_wf(i, #[trigger] self.outcomes[i])
    }

    /// What the error that ended the work says about the state: either the
    /// store failed before any member was touched, or reading through a
    /// member's new link gave another fingerprint than the group's.
    pub open spec fn failure_wf(self, error: ReplaceError) -> bool {
        match error {
            ReplaceError::StoreIo => self.canonical == Canonical::Unknown && forall|i: int|
                0 <= i < self.outcomes.len() ==> #[trigger] self.outcomes[i]
                    == MemberOutcome::Untouched,
            ReplaceError::IntegrityMismatch => exists|i: int|
                0 <= i < self.outcomes.len() && #[trigger] self.outcomes[i]
                    == MemberOutcome::IntegrityMismatch,
            _ => false,
        }
    }

    /// What the outcome of member `i` says about the state.
    pub open spec fn outcome_wf(self, i: int, outcome: MemberOutcome) -> bool {
        match outcome {
            MemberOutcome::Linked => self.canonical != Canonical::Unknown && self.target(i)
                is Some,
            MemberOutcome::NoRelativePath => self.canonical != Canonical::Unknown
                && self.target(i) is None,
            MemberOutcome::LinkIo => self.canonical != Canonical::Unknown && self.target(i)
                is Some,
            MemberOutcome::IntegrityMismatch => self.failure == Some(
                ReplaceError::IntegrityMismatch,
            ) && self.target(i) is Some,
            MemberOutcome::Untouched => self.members.len() < 2 || self.failure is Some,
        }
    }
}

/// What became of a group as a whole.
#[derive(Clone, Copy, Debug, PartialEq, Eq, Structural)]
pub enum GroupOutcome {
    /// The group has fewer than two files and was left alone.
    SkippedUnique,
    /// The work on the group has not ended.
    Pending,
    /// Every member is now a link to the store entry.
    Deduplicated,
    /// At least one member is no link to the store entry: the error that
    /// ended the work on the group, or else that of the first member that
    /// failed.
    Failed(ReplaceError),
}

/// The error of the first member from place `from` on that was not linked.
pub open spec fn first_error(outcomes: Seq<MemberOutcome>, from: int) -> Option<ReplaceError>
    decreases outcomes.len() - from,
{
    if from < 0 || from >= outcomes.len() {
        None
    } else {
        match outcomes[from] {
            MemberOutcome::NoRelativePath => Some(ReplaceError::NoRelativePath),
            MemberOutcome::LinkIo => Some(ReplaceError::LinkIo),
            MemberOutcome::IntegrityMismatch => Some(ReplaceError::IntegrityMismatch),
            _ => first_error(outcomes, from + 1),
        }
    }
}

impl ReplacerView {
    /// What became of the group as a whole.
    pub open spec fn verdict(self) -> GroupOutcome {
        if self.members.len() < 2 {
            GroupOutcome::SkippedUnique
        } else if self.stage != Stage::Done {
            GroupOutcome::Pending
        } else if self.failure is Some {
            GroupOutcome::Failed(self.failure.unwrap())
        } else {
            match first_error(self.outcomes, 0) {
                Some(error) => GroupOutcome::Failed(error),
                None => GroupOutcome::Deduplicated,
            }
        }
    }
}

/// No member from place `from` on has failed exactly when each of them is
/// linked or untouched.
pub proof fn lemma_first_error_none(outcomes: Seq<MemberOutcome>, from: int)
    requires
        0 <= from,
    ensures
        first_error(outcomes, from) is None <==> forall|i: int|
            from <= i < outcomes.len() ==> #[trigger] outcomes[i] == MemberOutcome::Linked
                || outcomes[i] == MemberOutcome::Untouched,
    decreases outcomes.len() - from,
{
    if from < outcomes.len() {
        lemma_first_error_none(outcomes, from + 1);
        if first_error(outcomes, from) is None {
            assert forall|i: int| from <= i < outcomes.len() implies #[trigger] outcomes[i]
                == MemberOutcome::Linked || outcomes[i] == MemberOutcome::Untouched by {
                if i > from {
                }
            }
        } else {
            if first_error(outcomes, from + 1) is None {
                assert(outcomes[from] != MemberOutcome::Linked && outcomes[from]
                    != MemberOutcome::Untouched);
            } else {
                let j = choose|j: int|
                    from + 1 <= j < outcomes.len() && !(#[trigger] outcomes[j]
                        == MemberOutcome::Linked || outcomes[j] == MemberOutcome::Untouched);
                assert(from <= j < outcomes.len());
            }
        }
    }
}

/// A group counts as deduplicated exactly when the work on it has ended and
/// every one of its two or more files is linked.
pub proof fn lemma_deduplicated_means_all_linked(v: ReplacerView)
    requires
        v.wf(),
    ensures
        v.verdict() == GroupOutcome::Deduplicated <==> v.members.len() >= 2 && v.stage
            == Stage::Done && forall|i: int|
            0 <= i < v.members.len() ==> #[trigger] v.outcomes[i] == MemberOutcome::Linked,
{
    lemma_first_error_none(v.outcomes, 0);
    if v.members.len() >= 2 && v.stage == Stage::Done {
        if v.failure is None {
            assert forall|i: int| 0 <= i < v.outcomes.len() implies #[trigger] v.outcomes[i]
                != MemberOutcome::Untouched by {
                assert(v.outcome_wf(i, v.outcomes[i]));
            }
        } else {
            // the work ended with an error at a member that is not linked
            let error = v.failure.unwrap();
            assert(v.failure_wf(error));
            if error == ReplaceError::StoreIo {
                assert(v.outcomes[0] == MemberOutcome::Untouched);
            } else {
                let i = choose|i: int|
                    0 <= i < v.outcomes.len() && #[trigger] v.outcomes[i]
                        == MemberOutcome::IntegrityMismatch;
                assert(v.outcomes[i] != MemberOutcome::Linked);
            }
        }
    }
}

/// The state in which the replacement of a group starts: at the probe of the
/// store entry, or done at once for a group of fewer than two files, which
/// is left alone.
pub open spec fn start(store_root: Seq<char>, hash: Seq<u8>, members: Seq<Seq<char>>) -> ReplacerView {
    ReplacerView {
        store_root: store_root,
        hash: hash,
        members: members,
        stage: if members.len() >= 2 {
            Stage::ProbeEntry
        } else {
            Stage::Done
        },
        canonical: Canonical::Unknown,
        outcomes: if members.len() >= 2 {
            Seq::empty()
        } else {
            Seq::new(members.len(), |i: int| MemberOutcome::Untouched)
        },
        failure: None,
    }
}

impl ReplacerView {
    /// How far the work on the group has come: a number that every answered
    /// action raises.
    pub open spec fn rank(self) -> int {
        match self.stage {
            Stage::ProbeEntry => 0,
            Stage::MoveToStore => 1,
            Stage::ProbeMember => 2 + 4 * self.at(),
            Stage::RemoveMember => 3 + 4 * self.at(),
            Stage::LinkMember => 4 + 4 * self.at(),
            Stage::Rehash => 5 + 4 * self.at(),
            Stage::Done => 2 + 4 * (self.members.len() as int),
        }
    }

    /// Whether the state is one from which the replacer may turn to the next
    /// member: the store entry exists and nothing has ended the work.
    pub open spec fn ready(self) -> bool {
        &&& self.outcomes.len() <= self.members.len()
        &&& self.members.len() >= 2
        &&& self.failure is None
        &&& self.canonical != Canonical::Unknown
        &&& forall|i: int|
            0 <= i < self.outcomes.len() ==> self.outcome_wf(i, #[trigger] self.outcomes[i])
    }

    /// Whether `later` differs from this state at most in its stage and in
    /// outcomes added behind those of this state.
    pub open spec fn extended_by(self, later: ReplacerView) -> bool {
        &&& later.store_root == self.store_root
        &&& later.hash == self.hash
        &&& later.members == self.members
        &&& later.canonical == self.canonical
        &&& later.outcomes.len() >= self.outcomes.len()
        &&& later.outcomes.subrange(0, self.outcomes.len() as int) == self.outcomes
    }
}

/// Turning to the next member keeps the state well formed, decides nothing
/// but members without a relative path, and stops at a member to link or at
/// the end.
pub proof fn lemma_settled(v: ReplacerView)
    requires
        v.ready(),
    ensures
        v.settled().wf(),
        v.extended_by(v.settled()),
        v.settled().failure is None,
        v.settled().stage == Stage::Done || v.settled().stage == Stage::ProbeMember
            || v.settled().stage == Stage::LinkMember,
        v.settled().rank() >= 2 + 4 * v.at(),
        forall|i: int|
            v.outcomes.len() <= i < v.settled().outcomes.len() ==> #[trigger] v.settled().outcomes[i]
                == MemberOutcome::NoRelativePath,
    decreases v.members.len() - v.outcomes.len(),
{
    let k = v.at();
    if k >= v.members.len() {
        let done = v.with_stage(Stage::Done);
        assert(done.outcomes.subrange(0, k) =~= v.outcomes);
        assert forall|i: int| 0 <= i < done.outcomes.len() implies done.outcome_wf(
            i,
            #[trigger] done.outcomes[i],
        ) by {
            assert(v.outcome_wf(i, v.outcomes[i]));
        }
    } else if v.target(k) is None {
        let next = v.decided(MemberOutcome::NoRelativePath);
        assert forall|i: int| 0 <= i < next.outcomes.len() implies next.outcome_wf(
            i,
            #[trigger] next.outcomes[i],
        ) by {
            if i < k {
                assert(v.outcome_wf(i, v.outcomes[i]));
            }
        }
        lemma_settled(next);
        let end = next.settled();
        assert(end.outcomes.subrange(0, k) =~= v.outcomes) by {
            assert(end.outcomes.subrange(0, k + 1) == next.outcomes);
            assert forall|i: int| 0 <= i < k implies end.outcomes.subrange(0, k)[i]
                == v.outcomes[i] by {
                assert(end.outcomes.subrange(0, k + 1)[i] == next.outcomes[i]);
            }
        }
        assert forall|i: int| v.outcomes.len() <= i < end.outcomes.len() implies #[trigger] end.outcomes[i]
            == MemberOutcome::NoRelativePath by {
            if i == k {
                assert(end.outcomes.subrange(0, k + 1)[k] == next.outcomes[k]);
            }
        }
    } else {
        let stage = if v.member_step(k) == MemberStep::AlreadyMoved {
            Stage::LinkMember
        } else {
            Stage::ProbeMember
        };
        let here = v.with_stage(stage);
        assert(here == v.settled());
        assert(here.outcomes.subrange(0, k) =~= v.outcomes);
        assert forall|i: int| 0 <= i < here.outcomes.len() implies here.outcome_wf(
            i,
            #[trigger] here.outcomes[i],
        ) by {
            assert(v.outcome_wf(i, v.outcomes[i]));
        }
    }
}

/// Ending the work on a group with an error keeps the state well formed.
pub proof fn lemma_aborted(v: ReplacerView, error: ReplaceError)
    requires
        v.outcomes.len() <= v.members.len(),
        v.members.len() >= 2,
        error == ReplaceError::StoreIo || error == ReplaceError::IntegrityMismatch,
        error == ReplaceError::StoreIo ==> v.outcomes.len() == 0 && v.canonical
            == Canonical::Unknown,
        error == ReplaceError::IntegrityMismatch ==> v.outcomes.len() > 0 && v.outcomes.last()
            == MemberOutcome::IntegrityMismatch,
        forall|i: int|
            0 <= i < v.outcomes.len() ==> (ReplacerView { failure: Some(error), ..v }).outcome_wf(
                i,
                #[trigger] v.outcomes[i],
            ),
    ensures
        v.aborted(error).wf(),
        v.aborted(error).outcomes.len() == v.members.len(),
        v.aborted(error).outcomes.subrange(0, v.outcomes.len() as int) == v.outcomes,
        forall|i: int|
            v.outcomes.len() <= i < v.members.len() ==> #[trigger] v.aborted(error).outcomes[i]
                == MemberOutcome::Untouched,
{
    let end = v.aborted(error);
    let marked = ReplacerView { failure: Some(error), ..v };
    assert(end.outcomes.subrange(0, v.outcomes.len() as int) =~= v.outcomes);
    if error == ReplaceError::IntegrityMismatch {
        assert(end.outcomes[v.outcomes.len() - 1] == MemberOutcome::IntegrityMismatch);
    }
    assert forall|i: int| 0 <= i < end.outcomes.len() implies end.outcome_wf(
        i,
        #[trigger] end.outcomes[i],
    ) by {
        if i < v.outcomes.len() {
            assert(end.outcomes[i] == v.outcomes[i]);
            assert(marked.outcome_wf(i, v.outcomes[i]));
        }
    }
}

/// The starting state is well formed.
pub proof fn lemma_start_wf(store_root: Seq<char>, hash: Seq<u8>, members: Seq<Seq<char>>)
    ensures
        start(store_root, hash, members).wf(),
{
}

/// Among the outcomes of a state in which nothing has ended the work on a
/// group of two or more, none is an integrity mismatch and none is
/// untouched.
pub proof fn lemma_outcomes_while_working(v: ReplacerView, i: int)
    requires
        v.wf(),
        v.failure is None,
        v.members.len() >= 2,
        0 <= i < v.outcomes.len(),
    ensures
        v.outcomes[i] == MemberOutcome::Linked || v.outcomes[i] == MemberOutcome::NoRelativePath
            || v.outcomes[i] == MemberOutcome::LinkIo,
        v.canonical != Canonical::Unknown,
{
    assert(v.outcome_wf(i, v.outcomes[i]));
}

/// A prefix of a prefix: where `long` starts with `mid` and `mid` starts
/// with `short`, `long` starts with `short`.
proof fn lemma_prefix_chain(short: Seq<MemberOutcome>, mid: Seq<MemberOutcome>, long: Seq<MemberOutcome>)
    requires
        short.len() <= mid.len() <= long.len(),
        mid.subrange(0, short.len() as int) == short,
        long.subrange(0, mid.len() as int) == mid,
    ensures
        long.subrange(0, short.len() as int) == short,
{
    assert forall|i: int| 0 <= i < short.len() implies long.subrange(0, short.len() as int)[i]
        == short[i] by {
        assert(mid.subrange(0, short.len() as int)[i] == mid[i]);
        assert(long.subrange(0, mid.len() as int)[i] == long[i]);
    }
    assert(long.subrange(0, short.len() as int) =~= short);
}

/// Deciding the member at work, or settling the store entry, and turning to
/// the next member keeps the state well formed.
proof fn lemma_turn(v: ReplacerView, from: ReplacerView)
    requires
        v.wf(),
        v.stage != Stage::Done,
        from.store_root == v.store_root,
        from.hash == v.hash,
        from.members == v.members,
        from.failure is None,
        from.canonical != Canonical::Unknown,
        from.canonical == v.canonical || v.outcomes.len() == 0,
        from.outcomes == v.outcomes || (v.at_member() && (from.outcomes == v.outcomes.push(
            MemberOutcome::Linked,
        ) || from.outcomes == v.outcomes.push(MemberOutcome::LinkIo))),
    ensures
        from.ready(),
        from.settled().wf(),
        from.settled().store_root == v.store_root,
        from.settled().hash == v.hash,
        from.settled().members == v.members,
        from.settled().outcomes.len() >= from.outcomes.len(),
        from.settled().outcomes.subrange(0, v.outcomes.len() as int) == v.outcomes,
        from.settled().rank() >= 2 + 4 * from.at(),
{
    let k = v.at();
    assert forall|i: int| 0 <= i < from.outcomes.len() implies from.outcome_wf(
        i,
        #[trigger] from.outcomes[i],
    ) by {
        if i < k {
            assert(from.outcomes[i] == v.outcomes[i]);
            lemma_outcomes_while_working(v, i);
        }
    }
    lemma_settled(from);
    assert(from.outcomes.subrange(0, k) =~= v.outcomes);
    lemma_prefix_chain(v.outcomes, from.outcomes, from.settled().outcomes);
}

/// Moving on within a member, or from the probe of the store entry to the
/// move, keeps the state well formed.
proof fn lemma_move_on(v: ReplacerView, stage: Stage)
    requires
        v.wf(),
        v.stage != Stage::Done,
        stage != Stage::Done,
        stage != Stage::ProbeEntry,
        stage == Stage::MoveToStore ==> v.stage == Stage::ProbeEntry,
        stage != Stage::MoveToStore ==> v.at_member(),
        stage == Stage::ProbeMember || stage == Stage::RemoveMember ==> v.stage
            == Stage::ProbeMember,
    ensures
        v.with_stage(stage).wf(),
        v.with_stage(stage).outcomes.subrange(0, v.outcomes.len() as int) == v.outcomes,
{
    let after = v.with_stage(stage);
    assert(after.outcomes.subrange(0, v.outcomes.len() as int) =~= v.outcomes);
    assert forall|i: int| 0 <= i < after.outcomes.len() implies after.outcome_wf(
        i,
        #[trigger] after.outcomes[i],
    ) by {
        assert(v.outcome_wf(i, v.outcomes[i]));
    }
}

/// Ending the work on a group that is being worked on keeps the state well
/// formed.
proof fn lemma_abort_working(v: ReplacerView, from: ReplacerView, error: ReplaceError)
    requires
        v.wf(),
        v.stage != Stage::Done,
        from.store_root == v.store_root,
        from.hash == v.hash,
        from.members == v.members,
        from.canonical == v.canonical,
        ((v.stage == Stage::ProbeEntry || v.stage == Stage::MoveToStore) && error
            == ReplaceError::StoreIo && from.outcomes == v.outcomes) || (v.stage == Stage::Rehash
            && error == ReplaceError::IntegrityMismatch && from.outcomes == v.outcomes.push(
            MemberOutcome::IntegrityMismatch,
        )),
    ensures
        from.aborted(error).wf(),
        from.aborted(error).outcomes.subrange(0, v.outcomes.len() as int) == v.outcomes,
{
    let k = v.at();
    let marked = ReplacerView { failure: Some(error), ..from };
    assert forall|i: int| 0 <= i < from.outcomes.len() implies marked.outcome_wf(
        i,
        #[trigger] from.outcomes[i],
    ) by {
        if i < k {
            assert(from.outcomes[i] == v.outcomes[i]);
            lemma_outcomes_while_working(v, i);
        }
    }
    lemma_aborted(from, error);
    assert(from.outcomes.subrange(0, k) =~= v.outcomes);
    lemma_prefix_chain(v.outcomes, from.outcomes, from.aborted(error).outcomes);
}

/// Every answer keeps the state well formed, and changes neither the group
/// nor what was decided before.
pub proof fn lemma_step_wf(v: ReplacerView, event: Event)
    requires
        v.wf(),
    ensures
        v.step(event).wf(),
        v.step(event).store_root == v.store_root,
        v.step(event).hash == v.hash,
        v.step(event).members == v.members,
        v.step(event).outcomes.len() >= v.outcomes.len(),
        v.step(event).outcomes.subrange(0, v.outcomes.len() as int) == v.outcomes,
{
    let k = v.at();
    match v.stage {
        Stage::ProbeEntry => match event {
            Event::Present => lemma_turn(v, v.with_canonical(Canonical::Found)),
            Event::Absent => lemma_move_on(v, Stage::MoveToStore),
            _ => lemma_abort_working(v, v, ReplaceError::StoreIo),
        },
        Stage::MoveToStore => match event {
            Event::Succeeded => lemma_turn(v, v.with_canonical(Canonical::Moved)),
            _ => lemma_abort_working(v, v, ReplaceError::StoreIo),
        },
        Stage::ProbeMember => match event {
            Event::Present => lemma_move_on(v, Stage::RemoveMember),
            Event::Absent => lemma_move_on(v, Stage::LinkMember),
            _ => lemma_turn(v, v.decided(MemberOutcome::LinkIo)),
        },
        Stage::RemoveMember => match event {
            Event::Succeeded => lemma_move_on(v, Stage::LinkMember),
            _ => lemma_turn(v, v.decided(MemberOutcome::LinkIo)),
        },
        Stage::LinkMember => match event {
            Event::Succeeded => lemma_move_on(v, Stage::Rehash),
            _ => lemma_turn(v, v.decided(MemberOutcome::LinkIo)),
        },
        Stage::Rehash => {
            if event matches Event::Hashed(hash) && hash@ == v.hash {
                lemma_turn(v, v.decided(MemberOutcome::Linked));
            } else {
                lemma_abort_working(
                    v,
                    v.decided(MemberOutcome::IntegrityMismatch),
                    ReplaceError::IntegrityMismatch,
                );
            }
        },
        Stage::Done => {
            assert(v.outcomes.subrange(0, k) =~= v.outcomes);
        },
    }
}

/// Every answered action brings the work forward: the rank rises with each
/// answer and never passes that of the finished state, so the work on a
/// group of `n` files ends after at most `2 + 4 * n` answers.
pub proof fn lemma_step_progress(v: ReplacerView, event: Event)
    requires
        v.wf(),
        v.stage != Stage::Done,
    ensures
        v.rank() < v.step(event).rank() <= 2 + 4 * v.members.len(),
        0 <= v.rank(),
{
    lemma_step_wf(v, event);
    match v.stage {
        Stage::ProbeEntry => match event {
            Event::Present => lemma_turn(v, v.with_canonical(Canonical::Found)),
            Event::Absent => {},
            _ => {},
        },
        Stage::MoveToStore => match event {
            Event::Succeeded => lemma_turn(v, v.with_canonical(Canonical::Moved)),
            _ => {},
        },
        Stage::ProbeMember => match event {
            Event::Present => {},
            Event::Absent => {},
            _ => lemma_turn(v, v.decided(MemberOutcome::LinkIo)),
        },
        Stage::RemoveMember => match event {
            Event::Succeeded => {},
            _ => lemma_turn(v, v.decided(MemberOutcome::LinkIo)),
        },
        Stage::LinkMember => match event {
            Event::Succeeded => {},
            _ => lemma_turn(v, v.decided(MemberOutcome::LinkIo)),
        },
        Stage::Rehash => {
            if event matches Event::Hashed(hash) && hash@ == v.hash {
                lemma_turn(v, v.decided(MemberOutcome::Linked));
            }
        },
        Stage::Done => {},
    }
}

/// A member counts as linked only when reading through its new link has
/// given the group's fingerprint: an answer adds the outcome `Linked` for
/// the member at work alone, and only if it reports that fingerprint for it.
pub proof fn lemma_linked_means_verified(v: ReplacerView, event: Event, i: int)
    requires
        v.wf(),
        v.outcomes.len() <= i < v.step(event).outcomes.len(),
        v.step(event).outcomes[i] == MemberOutcome::Linked,
    ensures
        v.stage == Stage::Rehash,
        i == v.at(),
        event matches Event::Hashed(hash) && hash@ == v.hash,
{
    let after = v.step(event);
    match v.stage {
        Stage::ProbeEntry => match event {
            Event::Present => {
                lemma_turn(v, v.with_canonical(Canonical::Found));
                lemma_settled(v.with_canonical(Canonical::Found));
            },
            Event::Absent => {},
            _ => lemma_aborted_untouched(v, ReplaceError::StoreIo, i),
        },
        Stage::MoveToStore => match event {
            Event::Succeeded => {
                lemma_turn(v, v.with_canonical(Canonical::Moved));
                lemma_settled(v.with_canonical(Canonical::Moved));
            },
            _ => lemma_aborted_untouched(v, ReplaceError::StoreIo, i),
        },
        Stage::ProbeMember => match event {
            Event::Present => {},
            Event::Absent => {},
            _ => lemma_decided_then_settled(v, MemberOutcome::LinkIo, i),
        },
        Stage::RemoveMember => match event {
            Event::Succeeded => {},
            _ => lemma_decided_then_settled(v, MemberOutcome::LinkIo, i),
        },
        Stage::LinkMember => match event {
            Event::Succeeded => {},
            _ => lemma_decided_then_settled(v, MemberOutcome::LinkIo, i),
        },
        Stage::Rehash => {
            if event matches Event::Hashed(hash) && hash@ == v.hash {
                lemma_decided_then_settled(v, MemberOutcome::Linked, i);
            } else {
                let last = v.decided(MemberOutcome::IntegrityMismatch);
                lemma_abort_working(v, last, ReplaceError::IntegrityMismatch);
                if i == v.at() {
                    let end = last.aborted(ReplaceError::IntegrityMismatch);
                    assert(end.outcomes[i] == last.outcomes[i]);
                } else {
                    lemma_aborted_untouched(last, ReplaceError::IntegrityMismatch, i);
                }
            }
        },
        Stage::Done => {},
    }
}

/// The outcomes that ending the work adds are all `Untouched`.
proof fn lemma_aborted_untouched(from: ReplacerView, error: ReplaceError, i: int)
    requires
        from.outcomes.len() <= i < from.aborted(error).outcomes.len(),
        from.outcomes.len() <= from.members.len(),
    ensures
        from.aborted(error).outcomes[i] == MemberOutcome::Untouched,
{
}

/// After the member at work is decided and the replacer has turned to the
/// next, the outcome at the member's place is the one decided, and those
/// behind it say that no relative path was found.
proof fn lemma_decided_then_settled(v: ReplacerView, outcome: MemberOutcome, i: int)
    requires
        v.wf(),
        v.at_member(),
        outcome == MemberOutcome::Linked || outcome == MemberOutcome::LinkIo,
        v.outcomes.len() <= i < v.decided(outcome).settled().outcomes.len(),
    ensures
        i == v.at() ==> v.decided(outcome).settled().outcomes[i] == outcome,
        i > v.at() ==> v.decided(outcome).settled().outcomes[i] == MemberOutcome::NoRelativePath,
{
    let from = v.decided(outcome);
    lemma_turn(v, from);
    lemma_settled(from);
    let end = from.settled();
    if i == v.at() {
        assert(end.outcomes.subrange(0, from.outcomes.len() as int)[i] == from.outcomes[i]);
    }
}

/// The canonical source is asked to be moved at most once for a group: the
/// move follows the probe of the store entry that found nothing, the probe
/// is never returned to, and what is known of the store entry is never
/// forgotten.
pub proof fn lemma_move_asked_once(v: ReplacerView, event: Event)
    requires
        v.wf(),
    ensures
        v.step(event).stage == Stage::MoveToStore ==> v.stage == Stage::ProbeEntry && event
            is Absent,
        v.step(event).stage != Stage::ProbeEntry,
        v.canonical != Canonical::Unknown ==> v.step(event).canonical == v.canonical,
        v.stage == Stage::MoveToStore <==> v.rank() == 1,
{
    lemma_step_wf(v, event);
    match v.stage {
        Stage::ProbeEntry => match event {
            Event::Present => lemma_turn(v, v.with_canonical(Canonical::Found)),
            Event::Absent => {},
            _ => {},
        },
        Stage::MoveToStore => match event {
            Event::Succeeded => lemma_turn(v, v.with_canonical(Canonical::Moved)),
            _ => {},
        },
        Stage::ProbeMember => match event {
            Event::Present => {},
            Event::Absent => {},
            _ => {
                lemma_turn(v, v.decided(MemberOutcome::LinkIo));
                lemma_settled(v.decided(MemberOutcome::LinkIo));
            },
        },
        Stage::RemoveMember => match event {
            Event::Succeeded => {},
            _ => {
                lemma_turn(v, v.decided(MemberOutcome::LinkIo));
                lemma_settled(v.decided(MemberOutcome::LinkIo));
            },
        },
        Stage::LinkMember => match event {
            Event::Succeeded => {},
            _ => {
                lemma_turn(v, v.decided(MemberOutcome::LinkIo));
                lemma_settled(v.decided(MemberOutcome::LinkIo));
            },
        },
        Stage::Rehash => {
            if event matches Event::Hashed(hash) && hash@ == v.hash {
                lemma_turn(v, v.decided(MemberOutcome::Linked));
                lemma_settled(v.decided(MemberOutcome::Linked));
            }
        },
        Stage::Done => {},
    }
}

/// What a replacer asks for stays within its group: it takes away or links
/// only members of a group of two or more, moves the first member to the
/// group's store entry and nowhere else, removes and links only once the
/// store entry is there, and never asks to remove the file that it has
/// moved.
pub proof fn lemma_pending_within_group(v: ReplacerView)
    requires
        v.wf(),
    ensures
        v.pending().touched() matches Some(path) ==> v.members.len() >= 2 && v.members.contains(
            path,
        ),
        v.pending() matches ActionView::MoveToStore { from, to } ==> from == v.members[0] && to
            == v.entry() && v.canonical == Canonical::Unknown,
        v.pending() is RemoveMember || v.pending() is LinkMember ==> v.canonical
            != Canonical::Unknown,
        v.pending() is RemoveMember || v.pending() is ProbeMember ==> !(v.at() == 0
            && v.canonical == Canonical::Moved),
        v.pending() matches ActionView::LinkMember { target, link } ==> link_target_of(
            v.entry(),
            link,
        ) == Some(target),
{
    if v.stage == Stage::MoveToStore {
        assert(v.members[0] == v.members[0]);
    }
    if v.at_member() {
        assert(v.members[v.at()] == v.members[v.at()]);
    }
}

/// A file whose content no other file shares is left alone: for a group of
/// fewer than two files the replacer asks for nothing, whatever it is told.
pub proof fn lemma_unique_left_alone(
    store_root: Seq<char>,
    hash: Seq<u8>,
    members: Seq<Seq<char>>,
    event: Event,
)
    requires
        members.len() < 2,
    ensures
        start(store_root, hash, members).pending() == ActionView::Finished,
        start(store_root, hash, members).step(event) == start(store_root, hash, members),
        forall|i: int|
            0 <= i < members.len() ==> #[trigger] start(store_root, hash, members).outcomes[i]
                == MemberOutcome::Untouched,
{
}

} // verus!
