use vstd::prelude::*;
use crate::hash::ContentHash;

verus! {

/// The texts of a sequence of strings.
pub open spec fn texts(paths: Seq<String>) -> Seq<Seq<char>> {
    paths.map_values(|p: String| p@)
}

/// What a group of files with one content is: the fingerprint that they
/// share, and their locations in the order of discovery.
pub struct GroupView {
    pub hash: Seq<u8>,
    pub members: Seq<Seq<char>>,
}

/// One discovery of the scan: a file's location and its fingerprint.
pub struct Record {
    pub path: Seq<char>,
    pub hash: Seq<u8>,
}

/// The files found with one fingerprint, in the order of discovery. The
/// first member is the canonical source: its bytes become the store entry.
#[derive(Clone, Debug, PartialEq, Eq)]
pub struct DuplicateGroup {
    pub hash: ContentHash,
    pub members: Vec<String>,
}

impl View for DuplicateGroup {
    type V = GroupView;

    open spec fn view(&self) -> GroupView {
        GroupView { hash: self.hash@, members: texts(self.members@) }
    }
}

impl DuplicateGroup {
    /// A copy of the group.
    pub fn duplicate(&self) -> (copy: DuplicateGroup)
        ensures
            copy@ == self@,
    {
        let mut members: Vec<String> = Vec::new();
        let mut i: usize = 0;
        while i < self.members.len()
            invariant
                i <= self.members.len(),
                members.len() == i,
                forall|j: int| 0 <= j < i ==> (#[trigger] members[j])@ == self.members[j]@,
            decreases self.members.len() - i,
        {
            members.push(self.members[i].clone());
            i += 1;
        }
        assert(texts(members@) =~= texts(self.members@));
        DuplicateGroup { hash: self.hash, members }
    }
}

/// The views of a sequence of groups.
pub open spec fn group_views(groups: Seq<DuplicateGroup>) -> Seq<GroupView> {
    groups.map_values(|g: DuplicateGroup| g@)
}

/// Whether one of the groups has the fingerprint `hash`.
pub open spec fn has_hash(groups: Seq<GroupView>, hash: Seq<u8>) -> bool {
    exists|i: int| 0 <= i < groups.len() && (#[trigger] groups[i]).hash == hash
}

/// The place of a group with the fingerprint `hash`, where there is one.
pub open spec fn place_of(groups: Seq<GroupView>, hash: Seq<u8>) -> int {
    choose|i: int| 0 <= i < groups.len() && (#[trigger] groups[i]).hash == hash
}

/// The groups after one more discovery: the path joins the end of the group
/// with its fingerprint, or starts a new last group where none has it.
pub open spec fn recorded(groups: Seq<GroupView>, path: Seq<char>, hash: Seq<u8>) -> Seq<
    GroupView,
> {
    if has_hash(groups, hash) {
        let i = place_of(groups, hash);
        groups.update(i, GroupView { hash: hash, members: groups[i].members.push(path) })
    } else {
        groups.push(GroupView { hash: hash, members: seq![path] })
    }
}

/// The groups that a sequence of discoveries forms.
pub open spec fn grouped(log: Seq<Record>) -> Seq<GroupView>
    decreases log.len(),
{
    if log.len() == 0 {
        Seq::empty()
    } else {
        recorded(grouped(log.drop_last()), log.last().path, log.last().hash)
    }
}

/// No group is empty, and no two groups have the same fingerprint.
pub open spec fn groups_wf(groups: Seq<GroupView>) -> bool {
    &&& forall|i: int| 0 <= i < groups.len() ==> (#[trigger] groups[i]).members.len() > 0
    &&& forall|i: int, j: int|
        0 <= i < groups.len() && 0 <= j < groups.len() && i != j ==> (#[trigger] groups[i]).hash
            != (#[trigger] groups[j]).hash
}

/// The paths discovered with the fingerprint `hash`, in the order of
/// discovery.
pub open spec fn paths_with(log: Seq<Record>, hash: Seq<u8>) -> Seq<Seq<char>>
    decreases log.len(),
{
    if log.len() == 0 {
        Seq::empty()
    } else if log.last().hash == hash {
        paths_with(log.drop_last(), hash).push(log.last().path)
    } else {
        paths_with(log.drop_last(), hash)
    }
}

/// The members of the group with the fingerprint `hash`; none where no group
/// has it.
pub open spec fn members_of(groups: Seq<GroupView>, hash: Seq<u8>) -> Seq<Seq<char>> {
    if has_hash(groups, hash) {
        groups[place_of(groups, hash)].members
    } else {
        Seq::empty()
    }
}

/// No location was discovered twice.
pub open spec fn paths_distinct(log: Seq<Record>) -> bool {
    forall|i: int, j: int|
        0 <= i < log.len() && 0 <= j < log.len() && i != j ==> (#[trigger] log[i]).path != (
        #[trigger] log[j]).path
}

/// Recording keeps the groups well formed.
pub proof fn lemma_recorded_wf(groups: Seq<GroupView>, path: Seq<char>, hash: Seq<u8>)
    requires
        groups_wf(groups),
    ensures
        groups_wf(recorded(groups, path, hash)),
{
    let after = recorded(groups, path, hash);
    if has_hash(groups, hash) {
        let k = place_of(groups, hash);
        assert forall|i: int| 0 <= i < after.len() implies (#[trigger] after[i]).members.len()
            > 0 by {
            if i != k {
                assert(after[i] == groups[i]);
            }
        }
        assert forall|i: int, j: int|
            0 <= i < after.len() && 0 <= j < after.len() && i != j implies (#[trigger] after[i]).hash
            != (#[trigger] after[j]).hash by {
            assert(after[i].hash == groups[i].hash);
            assert(after[j].hash == groups[j].hash);
        }
    } else {
        assert forall|i: int, j: int|
            0 <= i < after.len() && 0 <= j < after.len() && i != j implies (#[trigger] after[i]).hash
            != (#[trigger] after[j]).hash by {
            if i < groups.len() {
                assert(after[i] == groups[i]);
            }
            if j < groups.len() {
                assert(after[j] == groups[j]);
            }
        }
    }
}

/// Recording adds the path to the end of the members with its fingerprint
/// and leaves the members with every other fingerprint as they were.
pub proof fn lemma_recorded_members(
    groups: Seq<GroupView>,
    path: Seq<char>,
    hash: Seq<u8>,
    other: Seq<u8>,
)
    requires
        groups_wf(groups),
    ensures
        members_of(recorded(groups, path, hash), hash) == members_of(groups, hash).push(path),
        other != hash ==> members_of(recorded(groups, path, hash), other) == members_of(
            groups,
            other,
        ),
{
    let after = recorded(groups, path, hash);
    lemma_recorded_wf(groups, path, hash);
    if has_hash(groups, hash) {
        let k = place_of(groups, hash);
        assert(after[k].hash == hash);
        assert(has_hash(after, hash));
        let k2 = place_of(after, hash);
        assert(k2 == k) by {
            if k2 != k {
                assert(after[k2].hash != after[k].hash);
            }
        }
        if other != hash {
            if has_hash(groups, other) {
                let m = place_of(groups, other);
                assert(after[m] == groups[m]);
                assert(has_hash(after, other));
                let m2 = place_of(after, other);
                assert(m2 == m) by {
                    if m2 != m {
                        assert(after[m2].hash != after[m].hash);
                    }
                }
            } else {
                if has_hash(after, other) {
                    let m2 = place_of(after, other);
                    assert(groups[m2].hash == after[m2].hash);
                    assert(false);
                }
            }
        }
    } else {
        let n = groups.len() as int;
        assert(after[n].hash == hash);
        assert(has_hash(after, hash));
        let k2 = place_of(after, hash);
        assert(k2 == n) by {
            if k2 != n {
                assert(after[k2] == groups[k2]);
                assert(false);
            }
        }
        assert(after[n].members =~= Seq::<Seq<char>>::empty().push(path));
        if other != hash {
            if has_hash(groups, other) {
                let m = place_of(groups, other);
                assert(after[m] == groups[m]);
                assert(has_hash(after, other));
                let m2 = place_of(after, other);
                assert(m2 == m) by {
                    if m2 != m {
                        assert(after[m2].hash != after[m].hash);
                    }
                }
            } else {
                if has_hash(after, other) {
                    let m2 = place_of(after, other);
                    assert(m2 < n);
                    assert(groups[m2] == after[m2]);
                    assert(false);
                }
            }
        }
    }
}

/// The groups formed by any sequence of discoveries are well formed.
pub proof fn lemma_grouped_wf(log: Seq<Record>)
    ensures
        groups_wf(grouped(log)),
    decreases log.len(),
{
    if log.len() > 0 {
        lemma_grouped_wf(log.drop_last());
        lemma_recorded_wf(grouped(log.drop_last()), log.last().path, log.last().hash);
    }
}

/// Grouping loses and invents nothing: the members of the group with a
/// fingerprint are exactly the paths discovered with it, in the order of
/// discovery.
pub proof fn lemma_grouped_members(log: Seq<Record>, hash: Seq<u8>)
    ensures
        members_of(grouped(log), hash) == paths_with(log, hash),
    decreases log.len(),
{
    if log.len() > 0 {
        let before = log.drop_last();
        lemma_grouped_members(before, hash);
        lemma_grouped_wf(before);
        lemma_recorded_members(grouped(before), log.last().path, log.last().hash, hash);
    }
}

/// No location stands in two groups, nor twice in one.
pub open spec fn members_distinct(groups: Seq<GroupView>) -> bool {
    forall|i: int, a: int, j: int, b: int|
        #![trigger groups[i].members[a], groups[j].members[b]]
        0 <= i < groups.len() && 0 <= a < groups[i].members.len() && 0 <= j < groups.len() && 0
            <= b < groups[j].members.len() && groups[i].members[a] == groups[j].members[b] ==> i
            == j && a == b
}

/// Every member of a group was discovered, with the fingerprint of its
/// group.
pub proof fn lemma_member_was_recorded(log: Seq<Record>, i: int, a: int) -> (k: int)
    requires
        0 <= i < grouped(log).len(),
        0 <= a < grouped(log)[i].members.len(),
    ensures
        0 <= k < log.len(),
        log[k].path == grouped(log)[i].members[a],
        log[k].hash == grouped(log)[i].hash,
    decreases log.len(),
{
    let before = log.drop_last();
    let groups = grouped(before);
    let after = grouped(log);
    let last = log.len() - 1;
    assert(after == recorded(groups, log.last().path, log.last().hash));
    if has_hash(groups, log.last().hash) {
        let place = place_of(groups, log.last().hash);
        if i == place && a == groups[place].members.len() {
            last
        } else {
            assert(after[i].members[a] == groups[i].members[a]);
            assert(after[i].hash == groups[i].hash);
            lemma_member_was_recorded(before, i, a)
        }
    } else {
        if i == groups.len() {
            last
        } else {
            assert(after[i] == groups[i]);
            lemma_member_was_recorded(before, i, a)
        }
    }
}

/// Where no location was discovered twice, no location stands in two
/// groups, nor twice in one: each file has one place in the grouping.
pub proof fn lemma_grouped_members_distinct(log: Seq<Record>)
    requires
        paths_distinct(log),
    ensures
        members_distinct(grouped(log)),
    decreases log.len(),
{
    if log.len() > 0 {
        let before = log.drop_last();
        let groups = grouped(before);
        let after = grouped(log);
        let path = log.last().path;
        let hash = log.last().hash;
        assert(paths_distinct(before)) by {
            assert forall|m: int, n: int|
                0 <= m < before.len() && 0 <= n < before.len() && m != n implies (
            #[trigger] before[m]).path != (#[trigger] before[n]).path by {
                assert(before[m] == log[m]);
                assert(before[n] == log[n]);
            }
        }
        lemma_grouped_members_distinct(before);
        assert forall|i: int, a: int|
            0 <= i < groups.len() && 0 <= a < groups[i].members.len() implies (
        #[trigger] groups[i].members[a]) != path by {
            let k = lemma_member_was_recorded(before, i, a);
            assert(before[k] == log[k]);
            assert(log[k].path != log[log.len() - 1].path);
        }
        let fresh_group: int = if has_hash(groups, hash) {
            place_of(groups, hash)
        } else {
            groups.len() as int
        };
        let fresh_place: int = if has_hash(groups, hash) {
            groups[fresh_group].members.len() as int
        } else {
            0
        };
        assert forall|i: int, a: int|
            0 <= i < after.len() && 0 <= a < after[i].members.len() && !(i == fresh_group && a
                == fresh_place) implies 0 <= i < groups.len() && 0 <= a < groups[i].members.len()
            && (#[trigger] after[i].members[a]) == groups[i].members[a] by {
            if has_hash(groups, hash) {
                if i != fresh_group {
                    assert(after[i] == groups[i]);
                }
            } else {
                if i < groups.len() {
                    assert(after[i] == groups[i]);
                }
            }
        }
        assert(after[fresh_group].members[fresh_place] == path);
        assert forall|i: int, a: int, j: int, b: int|
            #![trigger after[i].members[a], after[j].members[b]]
            0 <= i < after.len() && 0 <= a < after[i].members.len() && 0 <= j < after.len() && 0
                <= b < after[j].members.len() && after[i].members[a] == after[j].members[b] implies i
            == j && a == b by {
            let first_fresh = i == fresh_group && a == fresh_place;
            let second_fresh = j == fresh_group && b == fresh_place;
            if !first_fresh && !second_fresh {
                assert(groups[i].members[a] == groups[j].members[b]);
            } else if first_fresh && !second_fresh {
                assert(groups[j].members[b] != path);
            } else if !first_fresh && second_fresh {
                assert(groups[i].members[a] != path);
            }
        }
    }
}

/// Collects the discoveries of a scan into groups by fingerprint.
pub struct Grouper {
    groups: Vec<DuplicateGroup>,
    log: Ghost<Seq<Record>>,
}

impl View for Grouper {
    type V = Seq<GroupView>;

    closed spec fn view(&self) -> Seq<GroupView> {
        group_views(self.groups@)
    }
}

impl Grouper {
    /// Everything recorded so far, in order.
    pub closed spec fn log(&self) -> Seq<Record> {
        self.log@
    }

    /// The groups are those that the recorded discoveries form.
    pub closed spec fn wf(&self) -> bool {
        self@ == grouped(self.log@)
    }

    /// A grouper that has recorded nothing.
    pub fn new() -> (fresh: Grouper)
        ensures
            fresh.wf(),
            fresh.log() == Seq::<Record>::empty(),
            fresh@ == Seq::<GroupView>::empty(),
    {
        let fresh = Grouper { groups: Vec::new(), log: Ghost(Seq::empty()) };
        assert(fresh@ =~= Seq::<GroupView>::empty());
        fresh
    }

    /// Records that the file at `path` has the fingerprint `hash`.
    pub fn record(&mut self, path: String, hash: ContentHash)
        requires
            old(self).wf(),
        ensures
            final(self).wf(),
            final(self).log() == old(self).log().push(Record { path: path@, hash: hash@ }),
            final(self)@ == recorded(old(self)@, path@, hash@),
    {
        let ghost before = self@;
        let ghost history = self.log@;
        let ghost entry = Record { path: path@, hash: hash@ };
        proof {
            lemma_grouped_wf(history);
            assert(history.push(entry).drop_last() =~= history);
        }
        let mut i: usize = 0;
        while i < self.groups.len()
            invariant
                i <= self.groups.len(),
                self@ == before,
                self.log@ == history,
                before == old(self)@,
                history == old(self).log(),
                before == grouped(history),
                groups_wf(before),
                entry == (Record { path: path@, hash: hash@ }),
                history.push(entry).drop_last() == history,
                forall|j: int| 0 <= j < i ==> (#[trigger] before[j]).hash != hash@,
            decreases self.groups.len() - i,
        {
            if self.groups[i].hash == hash {
                proof {
                    assert(before[i as int].hash == hash@);
                    assert(has_hash(before, hash@));
                    let k = place_of(before, hash@);
                    assert(k == i) by {
                        if k != i {
                            assert(before[k].hash != before[i as int].hash);
                        }
                    }
                }
                let ghost old_members = self.groups[i as int].members@;
                self.groups[i].members.push(path);
                proof {
                    assert(texts(old_members.push(path)) =~= texts(old_members).push(path@));
                    assert(self@ =~= recorded(before, path@, hash@));
                    self.log = Ghost(self.log@.push(entry));
                }
                return ;
            }
            i += 1;
        }
        proof {
            assert(!has_hash(before, hash@));
        }
        let mut members: Vec<String> = Vec::new();
        members.push(path);
        proof {
            assert(texts(members@) =~= seq![path@]);
        }
        self.groups.push(DuplicateGroup { hash, members });
        proof {
            assert(self@ =~= recorded(before, path@, hash@));
            self.log = Ghost(self.log@.push(entry));
        }
    }

    /// The groups of a well-formed grouper are those that its discoveries
    /// form.
    pub proof fn lemma_view(&self)
        requires
            self.wf(),
        ensures
            self@ == grouped(self.log()),
            groups_wf(self@),
    {
        lemma_grouped_wf(self.log@);
    }

    /// The number of groups.
    pub fn len(&self) -> (count: usize)
        ensures
            count == self@.len(),
    {
        assert(self@.len() == self.groups@.len());
        self.groups.len()
    }

    /// The groups formed so far, in the order in which their fingerprints
    /// were first discovered.
    pub fn groups(&self) -> (groups: &Vec<DuplicateGroup>)
        ensures
            group_views(groups@) == self@,
    {
        &self.groups
    }

    /// Ends the collection and hands the groups over.
    pub fn finalize(self) -> (groups: Vec<DuplicateGroup>)
        requires
            self.wf(),
        ensures
            group_views(groups@) == self@,
            group_views(groups@) == grouped(self.log()),
            groups_wf(group_views(groups@)),
    {
        proof {
            lemma_grouped_wf(self.log@);
        }
        self.groups
    }
}

} // verus!
