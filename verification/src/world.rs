use vstd::prelude::*;
use crate::action::ActionView;
use crate::action::Event;
use crate::group::lemma_grouped_wf;
use crate::group::lemma_member_was_recorded;
use crate::group::members_distinct;
use crate::replacement::lemma_outcomes_while_working;
use crate::replacement::lemma_pending_within_group;
use crate::replacement::lemma_step_wf;
use crate::replacement::lemma_settled;
use crate::replacement::start;
use crate::replacement::Canonical;
use crate::replacement::MemberOutcome;
use crate::replacement::ReplaceError;
use crate::replacement::ReplacerView;
use crate::replacement::Stage;
use crate::run::lemma_run_of_unique_files;
use crate::run::EngineView;
use crate::run::Phase;
use crate::store::entry_path;
use crate::store::lemma_entry_path_injective;

verus! {

/// What readers find in the file system: for every location through which
/// bytes can be read, the fingerprint of those bytes.
pub struct World {
    pub seen: Map<Seq<char>, Seq<u8>>,
}

impl World {
    /// Whether a reader of `path` finds content with the fingerprint `hash`.
    pub open spec fn reads(self, path: Seq<char>, hash: Seq<u8>) -> bool {
        self.seen.contains_key(path) && self.seen[path] == hash
    }

    /// Whether `other` shows the same at every location but `path`.
    pub open spec fn same_but_at(self, other: World, path: Seq<char>) -> bool {
        forall|p: Seq<char>|
            p != path ==> (#[trigger] self.seen.contains_key(p)) == other.seen.contains_key(p)
                && (self.seen.contains_key(p) ==> self.seen[p] == other.seen[p])
    }
}

/// Whether `after` is what the world `before` becomes when the caller does
/// what `action` asks for and truthfully reports `event`: a move takes what
/// is read at one place to another, a removal leaves nothing to read, a new
/// link changes what is read at its own place only, a fingerprint reported
/// is that of what is read, and nothing else changes anything.
pub open spec fn performed(before: World, action: ActionView, event: Event, after: World) -> bool {
    match action {
        ActionView::MoveToStore { from, to } => if event is Succeeded {
            if before.seen.contains_key(from) {
                after.seen == before.seen.remove(from).insert(to, before.seen[from])
            } else {
                after.seen == before.seen.remove(from).remove(to)
            }
        } else {
            after == before
        },
        ActionView::RemoveMember { path } => if event is Succeeded {
            after.seen == before.seen.remove(path)
        } else {
            after == before
        },
        ActionView::LinkMember { target, link } => if event is Succeeded {
            after.same_but_at(before, link)
        } else {
            after == before
        },
        ActionView::Rehash { path } => after == before && (event matches Event::Hashed(hash)
            ==> before.reads(path, hash@)),
        _ => after == before,
    }
}

impl ReplacerView {
    /// No two members are the same location, and none is the store entry.
    pub open spec fn apart(self) -> bool {
        &&& forall|i: int, j: int|
            0 <= i < self.members.len() && 0 <= j < self.members.len() && i != j
                ==> #[trigger] self.members[i] != #[trigger] self.members[j]
        &&& forall|i: int| 0 <= i < self.members.len() ==> #[trigger] self.members[i] != self.entry()
    }

    /// Whether member `i` is the canonical source after its move into the
    /// store and before a link stands in its place: its bytes are then read
    /// at the store entry.
    pub open spec fn moved_away(self, i: int) -> bool {
        i == 0 && self.canonical == Canonical::Moved && !(self.outcomes.len() > 0
            && self.outcomes[0] == MemberOutcome::Linked)
    }

    /// Whether the state promises that a reader of member `i` finds the
    /// content that the member had when it was discovered. It does for a
    /// member that is linked, and for one that nothing was done to; it does
    /// not for a member at which a removal, a link or the reading through
    /// the link has failed, nor between a member's removal and the reading
    /// through its link.
    pub open spec fn keeps(self, i: int) -> bool {
        if self.moved_away(i) {
            false
        } else if i < self.outcomes.len() {
            self.outcomes[i] == MemberOutcome::Linked || self.outcomes[i]
                == MemberOutcome::NoRelativePath || self.outcomes[i] == MemberOutcome::Untouched
        } else if i == self.at() {
            self.stage != Stage::LinkMember && self.stage != Stage::Rehash
        } else {
            true
        }
    }

    /// Whether the world holds what the state promises: every member that
    /// the state keeps reads as the group's fingerprint, and so does the
    /// store entry once the canonical source was moved into it.
    pub open spec fn upheld(self, world: World) -> bool {
        &&& forall|i: int|
            0 <= i < self.members.len() && self.keeps(i) ==> world.reads(
                #[trigger] self.members[i],
                self.hash,
            )
        &&& self.canonical == Canonical::Moved ==> world.reads(self.entry(), self.hash)
    }
}

/// Where every file of a group reads as the group's fingerprint, the
/// starting state's promises hold.
pub proof fn lemma_start_upheld(
    store_root: Seq<char>,
    hash: Seq<u8>,
    members: Seq<Seq<char>>,
    world: World,
)
    requires
        forall|i: int| 0 <= i < members.len() ==> world.reads(#[trigger] members[i], hash),
    ensures
        start(store_root, hash, members).upheld(world),
{
}

/// Turning to the next member promises nothing that did not hold before.
proof fn lemma_settled_upheld(v: ReplacerView, world: World)
    requires
        v.ready(),
        v.stage != Stage::Done,
        forall|i: int|
            0 <= i < v.members.len() && (i >= v.at() || v.keeps(i)) && !v.moved_away(i)
                ==> world.reads(#[trigger] v.members[i], v.hash),
        v.canonical == Canonical::Moved ==> world.reads(v.entry(), v.hash),
        v.outcomes.len() > 0 ==> v.outcomes[0] != MemberOutcome::IntegrityMismatch
            && v.outcomes[0] != MemberOutcome::Untouched,
    ensures
        v.settled().upheld(world),
    decreases v.members.len() - v.outcomes.len(),
{
    let k = v.at();
    let end = v.settled();
    lemma_settled(v);
    assert(end.outcomes.subrange(0, k)[0] == end.outcomes[0] || k == 0);
    if k >= v.members.len() {
        assert forall|i: int| 0 <= i < end.members.len() && end.keeps(i) implies world.reads(
            #[trigger] end.members[i],
            end.hash,
        ) by {
            assert(v.keeps(i) || i >= v.at());
        }
    } else if v.target(k) is None {
        let next = v.decided(MemberOutcome::NoRelativePath);
        assert forall|i: int| 0 <= i < next.outcomes.len() implies next.outcome_wf(
            i,
            #[trigger] next.outcomes[i],
        ) by {
            if i < k {
                assert(v.outcome_wf(i, v.outcomes[i]));
            }
        }
        assert forall|i: int|
            0 <= i < next.members.len() && (i >= next.at() || next.keeps(i)) && !next.moved_away(
                i,
            ) implies world.reads(#[trigger] next.members[i], next.hash) by {
            if i < k {
                assert(next.outcomes[i] == v.outcomes[i]);
                assert(v.keeps(i));
            }
        }
        lemma_settled_upheld(next, world);
    } else {
        assert forall|i: int| 0 <= i < end.members.len() && end.keeps(i) implies world.reads(
            #[trigger] end.members[i],
            end.hash,
        ) by {
            assert(v.keeps(i) || i >= v.at());
        }
    }
}

/// Deciding the member at work, or settling the store entry, and turning to
/// the next member promises nothing that does not hold.
proof fn lemma_turn_upheld(v: ReplacerView, from: ReplacerView, world: World)
    requires
        v.wf(),
        v.stage != Stage::Done,
        from.store_root == v.store_root,
        from.hash == v.hash,
        from.members == v.members,
        from.stage == v.stage,
        from.failure is None,
        from.canonical != Canonical::Unknown,
        from.canonical == v.canonical || v.outcomes.len() == 0,
        from.outcomes == v.outcomes || (v.at_member() && (from.outcomes == v.outcomes.push(
            MemberOutcome::Linked,
        ) || from.outcomes == v.outcomes.push(MemberOutcome::LinkIo))),
        forall|i: int|
            0 <= i < from.members.len() && (i >= from.at() || from.keeps(i)) && !from.moved_away(
                i,
            ) ==> world.reads(#[trigger] from.members[i], from.hash),
        from.canonical == Canonical::Moved ==> world.reads(from.entry(), from.hash),
    ensures
        from.settled().upheld(world),
{
    let k = v.at();
    assert forall|i: int| 0 <= i < from.outcomes.len() implies from.outcome_wf(
        i,
        #[trigger] from.outcomes[i],
    ) by {
        if i < k {
            assert(from.outcomes[i] == v.outcomes[i]);
            lemma_outcomes_while_working(v, i);
        }
    }
    if from.outcomes.len() > 0 {
        if k > 0 {
            assert(from.outcomes[0] == v.outcomes[0]);
            lemma_outcomes_while_working(v, 0);
        }
    }
    lemma_settled_upheld(from, world);
}

/// Content is preserved: while the caller does what it is asked and reports
/// truthfully, every promise of the state holds in the world. So at the end
/// a reader of a member that is linked, or that was left untouched, finds
/// the content that the member had when it was discovered, and the content
/// of a canonical source that was moved is read at the store entry.
pub proof fn lemma_step_upheld(v: ReplacerView, world: World, event: Event, after: World)
    requires
        v.wf(),
        v.apart(),
        v.upheld(world),
        performed(world, v.pending(), event, after),
    ensures
        v.step(event).upheld(after),
{
    let k = v.at();
    let end = v.step(event);
    if v.stage != Stage::Done {
        assert forall|i: int| 0 <= i < v.outcomes.len() implies v.outcomes[i]
            != MemberOutcome::IntegrityMismatch && v.outcomes[i] != MemberOutcome::Untouched by {
            lemma_outcomes_while_working(v, i);
        }
    }
    match v.stage {
        Stage::ProbeEntry => match event {
            Event::Present => {
                let from = v.with_canonical(Canonical::Found);
                assert forall|i: int| 0 <= i < from.members.len() implies world.reads(
                    #[trigger] from.members[i],
                    from.hash,
                ) by {
                    assert(v.keeps(i));
                }
                lemma_turn_upheld(v, from, world);
            },
            Event::Absent => {
                assert forall|i: int| 0 <= i < end.members.len() && end.keeps(i) implies after.reads(
                    #[trigger] end.members[i],
                    end.hash,
                ) by {
                    assert(v.keeps(i));
                }
            },
            _ => {
                assert forall|i: int| 0 <= i < end.members.len() && end.keeps(i) implies after.reads(
                    #[trigger] end.members[i],
                    end.hash,
                ) by {
                    assert(v.keeps(i));
                }
            },
        },
        Stage::MoveToStore => match event {
            Event::Succeeded => {
                let from = v.with_canonical(Canonical::Moved);
                assert(v.keeps(0));
                assert(world.reads(v.members[0], v.hash));
                assert forall|i: int|
                    0 <= i < from.members.len() && !from.moved_away(i) implies after.reads(
                    #[trigger] from.members[i],
                    from.hash,
                ) by {
                    assert(v.keeps(i));
                    assert(v.members[i] != v.members[0]);
                    assert(v.members[i] != v.entry());
                }
                lemma_turn_upheld(v, from, after);
            },
            _ => {
                assert forall|i: int| 0 <= i < end.members.len() && end.keeps(i) implies after.reads(
                    #[trigger] end.members[i],
                    end.hash,
                ) by {
                    assert(v.keeps(i));
                }
            },
        },
        Stage::ProbeMember => match event {
            Event::Present => {
                assert forall|i: int| 0 <= i < end.members.len() && end.keeps(i) implies after.reads(
                    #[trigger] end.members[i],
                    end.hash,
                ) by {
                    assert(v.keeps(i));
                }
            },
            Event::Absent => {
                assert forall|i: int| 0 <= i < end.members.len() && end.keeps(i) implies after.reads(
                    #[trigger] end.members[i],
                    end.hash,
                ) by {
                    assert(v.keeps(i));
                }
            },
            _ => {
                lemma_decided_upheld(v, MemberOutcome::LinkIo, world, after);
            },
        },
        Stage::RemoveMember => match event {
            Event::Succeeded => {
                assert forall|i: int| 0 <= i < end.members.len() && end.keeps(i) implies after.reads(
                    #[trigger] end.members[i],
                    end.hash,
                ) by {
                    assert(v.keeps(i));
                    assert(v.members[i] != v.members[k]);
                }
                assert(v.members[k] != v.entry());
            },
            _ => {
                lemma_decided_upheld(v, MemberOutcome::LinkIo, world, after);
            },
        },
        Stage::LinkMember => match event {
            Event::Succeeded => {
                assert forall|i: int| 0 <= i < end.members.len() && end.keeps(i) implies after.reads(
                    #[trigger] end.members[i],
                    end.hash,
                ) by {
                    assert(v.keeps(i));
                    assert(v.members[i] != v.members[k]);
                    assert(after.seen.contains_key(v.members[i]));
                }
                assert(v.members[k] != v.entry());
                if v.canonical == Canonical::Moved {
                    assert(after.seen.contains_key(v.entry()));
                }
            },
            _ => {
                lemma_decided_upheld(v, MemberOutcome::LinkIo, world, after);
            },
        },
        Stage::Rehash => {
            if event matches Event::Hashed(hash) && hash@ == v.hash {
                assert(world.reads(v.members[k], v.hash));
                lemma_decided_upheld(v, MemberOutcome::Linked, world, after);
            } else {
                let last = v.decided(MemberOutcome::IntegrityMismatch);
                assert(end == last.aborted(ReplaceError::IntegrityMismatch));
                assert forall|i: int| 0 <= i < end.members.len() && end.keeps(i) implies after.reads(
                    #[trigger] end.members[i],
                    end.hash,
                ) by {
                    if i < k {
                        assert(end.outcomes[i] == v.outcomes[i]);
                        assert(v.keeps(i));
                    } else if i == k {
                        assert(end.outcomes[i] == MemberOutcome::IntegrityMismatch);
                    } else {
                        assert(v.keeps(i));
                    }
                }
            }
        },
        Stage::Done => {
            assert forall|i: int| 0 <= i < end.members.len() && end.keeps(i) implies after.reads(
                #[trigger] end.members[i],
                end.hash,
            ) by {
                assert(v.keeps(i));
            }
        },
    }
}

/// Deciding the member at work as linked or failed, in a world that the
/// pending action has not changed, and turning to the next member promises
/// nothing that does not hold.
proof fn lemma_decided_upheld(v: ReplacerView, outcome: MemberOutcome, world: World, after: World)
    requires
        v.wf(),
        v.at_member(),
        v.upheld(world),
        after == world,
        outcome == MemberOutcome::LinkIo || (outcome == MemberOutcome::Linked && world.reads(
            v.members[v.at()],
            v.hash,
        )),
    ensures
        v.decided(outcome).settled().upheld(after),
{
    let k = v.at();
    let from = v.decided(outcome);
    assert forall|i: int|
        0 <= i < from.members.len() && (i >= from.at() || from.keeps(i)) && !from.moved_away(
            i,
        ) implies world.reads(#[trigger] from.members[i], from.hash) by {
        if i < k {
            assert(from.outcomes[i] == v.outcomes[i]);
            assert(v.keeps(i));
        } else if i > k {
            assert(v.keeps(i));
        }
    }
    lemma_turn_upheld(v, from, world);
}

/// What the promises come to when the work on a group has ended: a reader
/// of a member that is linked finds the group's content, and so does a
/// reader of a member that was passed over or left untouched, but for a
/// canonical source that was moved, whose content is read at the store
/// entry.
pub proof fn lemma_done_upheld(v: ReplacerView, world: World, i: int)
    requires
        v.wf(),
        v.stage == Stage::Done,
        v.upheld(world),
        0 <= i < v.members.len(),
    ensures
        v.outcomes[i] == MemberOutcome::Linked ==> world.reads(v.members[i], v.hash),
        (v.outcomes[i] == MemberOutcome::Untouched || v.outcomes[i]
            == MemberOutcome::NoRelativePath) && !(i == 0 && v.canonical == Canonical::Moved)
            ==> world.reads(v.members[i], v.hash),
        v.canonical == Canonical::Moved ==> world.reads(v.entry(), v.hash),
{
    if v.keeps(i) {
        assert(world.reads(v.members[i], v.hash));
    }
}

/// Whether doing what `action` asks for can change what is read at `path`.
pub open spec fn may_change(action: ActionView, path: Seq<char>) -> bool {
    match action {
        ActionView::MoveToStore { from, to } => path == from || path == to,
        ActionView::RemoveMember { path: gone } => path == gone,
        ActionView::LinkMember { target, link } => path == link,
        _ => false,
    }
}

/// An action leaves every location alone that it cannot change.
pub proof fn lemma_frame(
    before: World,
    action: ActionView,
    event: Event,
    after: World,
    path: Seq<char>,
    hash: Seq<u8>,
)
    requires
        performed(before, action, event, after),
        !may_change(action, path),
    ensures
        after.reads(path, hash) == before.reads(path, hash),
{
    match action {
        ActionView::LinkMember { target, link } => {
            if event is Succeeded {
                assert(after.seen.contains_key(path) == before.seen.contains_key(path));
            }
        },
        _ => {},
    }
}

/// The promises of a replacer hold on in a world that an action has changed
/// at none of the replacer's locations.
proof fn lemma_bystander_upheld(
    r: ReplacerView,
    before: World,
    action: ActionView,
    event: Event,
    after: World,
)
    requires
        r.upheld(before),
        performed(before, action, event, after),
        forall|i: int| 0 <= i < r.members.len() ==> !may_change(action, #[trigger] r.members[i]),
        !may_change(action, r.entry()),
    ensures
        r.upheld(after),
{
    assert forall|i: int| 0 <= i < r.members.len() && r.keeps(i) implies after.reads(
        #[trigger] r.members[i],
        r.hash,
    ) by {
        lemma_frame(before, action, event, after, r.members[i], r.hash);
    }
    lemma_frame(before, action, event, after, r.entry(), r.hash);
}

impl EngineView {
    /// Every discovery is true of the world: the file at each location
    /// discovered reads as the fingerprint discovered with it.
    pub open spec fn truthful(self, world: World) -> bool {
        forall|k: int|
            0 <= k < self.log.len() ==> world.reads(
                (#[trigger] self.log[k]).path,
                self.log[k].hash,
            )
    }

    /// No location stands in two groups or twice in one, and no store entry
    /// of a group is a location that was discovered.
    pub open spec fn apart(self) -> bool {
        &&& members_distinct(self.groups())
        &&& forall|g: int, j: int, i: int|
            0 <= g < self.groups().len() && 0 <= j < self.groups().len() && 0 <= i
                < self.groups()[j].members.len() ==> entry_path(
                self.store_root,
                (#[trigger] self.groups()[g]).hash,
            ) != #[trigger] self.groups()[j].members[i]
    }

    /// Whether no replacement of group `g` has started.
    pub open spec fn waiting(self, g: int) -> bool {
        self.done.len() + (if self.job is Some {
            1int
        } else {
            0int
        }) <= g < self.groups().len()
    }

    /// Whether the world holds what the run promises: the promises of every
    /// replacement, ended or at work, and for every group not yet worked on
    /// that each member reads as the group's fingerprint.
    pub open spec fn upheld(self, world: World) -> bool {
        &&& forall|g: int| 0 <= g < self.done.len() ==> (#[trigger] self.done[g]).upheld(world)
        &&& self.job matches Some(job) ==> job.upheld(world)
        &&& forall|g: int, i: int|
            self.waiting(g) && 0 <= i < self.groups()[g].members.len() ==> world.reads(
                #[trigger] self.groups()[g].members[i],
                self.groups()[g].hash,
            )
    }
}

/// After a truthful scan the run's promises hold: every member of every
/// group reads as the group's fingerprint.
pub proof fn lemma_scan_upheld(v: EngineView, world: World)
    requires
        v.wf(),
        v.done.len() == 0,
        v.job is None,
        v.truthful(world),
    ensures
        v.upheld(world),
        v.scan_finished().upheld(world),
{
    assert forall|g: int, i: int|
        v.waiting(g) && 0 <= i < v.groups()[g].members.len() implies world.reads(
        #[trigger] v.groups()[g].members[i],
        v.groups()[g].hash,
    ) by {
        let k = lemma_member_was_recorded(v.log, g, i);
        assert(world.reads(v.log[k].path, v.log[k].hash));
    }
}

/// Turning to the next group promises nothing that does not hold.
proof fn lemma_next_job_upheld(v: EngineView, world: World)
    requires
        !v.dry_run,
        v.done.len() <= v.groups().len(),
        forall|i: int|
            0 <= i < v.done.len() ==> v.serves(#[trigger] v.done[i], i) && v.done[i].stage
                == Stage::Done,
        forall|g: int| 0 <= g < v.done.len() ==> (#[trigger] v.done[g]).upheld(world),
        forall|g: int, i: int|
            v.done.len() <= g < v.groups().len() && 0 <= i < v.groups()[g].members.len()
                ==> world.reads(#[trigger] v.groups()[g].members[i], v.groups()[g].hash),
    ensures
        v.next_job().upheld(world),
    decreases v.groups().len() - v.done.len(),
{
    let d = v.done.len() as int;
    if d < v.groups().len() {
        let group = v.groups()[d];
        let job = start(v.store_root, group.hash, group.members);
        assert forall|i: int| 0 <= i < group.members.len() implies world.reads(
            #[trigger] group.members[i],
            group.hash,
        ) by {
            assert(world.reads(v.groups()[d].members[i], v.groups()[d].hash));
        }
        lemma_start_upheld(v.store_root, group.hash, group.members, world);
        if job.stage == Stage::Done {
            let next = EngineView { done: v.done.push(job), ..v };
            assert forall|k: int| 0 <= k < next.done.len() implies next.serves(
                #[trigger] next.done[k],
                k,
            ) && next.done[k].stage == Stage::Done by {
                if k < d {
                    assert(v.serves(v.done[k], k));
                }
            }
            assert forall|g: int| 0 <= g < next.done.len() implies (#[trigger] next.done[g]).upheld(
                world,
            ) by {
                if g < d {
                    assert(v.done[g].upheld(world));
                }
            }
            lemma_next_job_upheld(next, world);
        } else {
            let end = v.next_job();
            assert(end.job == Some(job));
            assert forall|g: int, i: int|
                end.waiting(g) && 0 <= i < end.groups()[g].members.len() implies world.reads(
                #[trigger] end.groups()[g].members[i],
                end.groups()[g].hash,
            ) by {
                assert(v.done.len() <= g < v.groups().len());
            }
        }
    }
}

/// Content is preserved over a whole run: while the caller does what it is
/// asked and reports truthfully, the promises of every replacement hold and
/// the files of the groups not yet worked on read as they did.
pub proof fn lemma_engine_step_upheld(v: EngineView, world: World, event: Event, after: World)
    requires
        v.wf(),
        v.apart(),
        v.upheld(world),
        performed(world, v.pending(), event, after),
    ensures
        v.step(event).upheld(after),
{
    let end = v.step(event);
    let d = v.done.len() as int;
    let groups = v.groups();
    lemma_grouped_wf(v.log);
    match v.phase {
        Phase::CreatingStore => {
            if event is Succeeded {
                lemma_next_job_upheld(v, world);
            }
        },
        Phase::Replacing => {
            let job = v.job.unwrap();
            let action = job.pending();
            lemma_pending_within_group(job);
            lemma_step_wf(job, event);
            // the job's own locations are apart
            assert(job.apart()) by {
                assert forall|i: int, j: int|
                    0 <= i < job.members.len() && 0 <= j < job.members.len() && i
                        != j implies #[trigger] job.members[i] != #[trigger] job.members[j] by {
                    assert(groups[d].members[i] == job.members[i]);
                    assert(groups[d].members[j] == job.members[j]);
                }
                assert forall|i: int| 0 <= i < job.members.len() implies #[trigger] job.members[i]
                    != job.entry() by {
                    assert(entry_path(v.store_root, groups[d].hash) != groups[d].members[i]);
                }
            }
            lemma_step_upheld(job, world, event, after);
            // what the action can change lies within the group at work
            assert forall|p: Seq<char>| may_change(action, p) implies p == job.entry()
                || job.members.contains(p) by {}
            assert forall|g: int, i: int|
                0 <= g < groups.len() && g != d && 0 <= i < groups[g].members.len() implies !may_change(
                action,
                #[trigger] groups[g].members[i],
            ) by {
                let p = groups[g].members[i];
                if may_change(action, p) {
                    if p == job.entry() {
                        assert(entry_path(v.store_root, groups[d].hash) != groups[g].members[i]);
                    } else {
                        let a = choose|a: int| 0 <= a < job.members.len() && job.members[a] == p;
                        assert(groups[d].members[a] == groups[g].members[i]);
                    }
                }
            }
            assert forall|g: int| 0 <= g < groups.len() && g != d implies !may_change(
                action,
                entry_path(v.store_root, (#[trigger] groups[g]).hash),
            ) by {
                let p = entry_path(v.store_root, groups[g].hash);
                if may_change(action, p) {
                    if p == job.entry() {
                        lemma_entry_path_injective(v.store_root, groups[g].hash, groups[d].hash);
                        assert(groups[g].hash != groups[d].hash);
                    } else {
                        let a = choose|a: int| 0 <= a < job.members.len() && job.members[a] == p;
                        assert(entry_path(v.store_root, groups[g].hash) != groups[d].members[a]);
                    }
                }
            }
            assert forall|g: int| 0 <= g < v.done.len() implies (#[trigger] v.done[g]).upheld(
                after,
            ) by {
                let r = v.done[g];
                assert(v.serves(r, g));
                assert forall|i: int| 0 <= i < r.members.len() implies !may_change(
                    action,
                    #[trigger] r.members[i],
                ) by {
                    assert(!may_change(action, groups[g].members[i]));
                }
                assert(!may_change(action, entry_path(v.store_root, groups[g].hash)));
                lemma_bystander_upheld(r, world, action, event, after);
            }
            assert forall|g: int, i: int|
                d < g < groups.len() && 0 <= i < groups[g].members.len() implies after.reads(
                #[trigger] groups[g].members[i],
                groups[g].hash,
            ) by {
                assert(v.waiting(g));
                assert(!may_change(action, groups[g].members[i]));
                lemma_frame(world, action, event, after, groups[g].members[i], groups[g].hash);
            }
            let stepped = job.step(event);
            if stepped.stage == Stage::Done {
                let next = EngineView { done: v.done.push(stepped), job: None, ..v };
                assert forall|k: int| 0 <= k < next.done.len() implies next.serves(
                    #[trigger] next.done[k],
                    k,
                ) && next.done[k].stage == Stage::Done by {
                    if k < d {
                        assert(v.serves(v.done[k], k));
                    }
                }
                assert forall|g: int| 0 <= g < next.done.len() implies (
                #[trigger] next.done[g]).upheld(after) by {
                    if g < d {
                        assert(v.done[g].upheld(after));
                    }
                }
                lemma_next_job_upheld(next, after);
            } else {
                assert forall|g: int, i: int|
                    end.waiting(g) && 0 <= i < end.groups()[g].members.len() implies after.reads(
                    #[trigger] end.groups()[g].members[i],
                    end.groups()[g].hash,
                ) by {
                    assert(d < g < groups.len());
                }
            }
        },
        _ => {},
    }
}

/// A run over a tree in which every content stands in one regular file, as
/// a tree does that a run has deduplicated, leaves the world as it is: it
/// asks for the store directory and for nothing after that.
pub proof fn lemma_rerun_changes_nothing(v: EngineView, world: World, event: Event, after: World)
    requires
        v.wf(),
        v.phase == Phase::CreatingStore,
        forall|g: int| 0 <= g < v.groups().len() ==> (#[trigger] v.groups()[g]).members.len() < 2,
        performed(world, v.pending(), event, after),
    ensures
        after == world,
        v.step(event).pending() == ActionView::Finished,
{
    if event is Succeeded {
        lemma_run_of_unique_files(v);
    }
}

} // verus!
