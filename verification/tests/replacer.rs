use dedlink::action::Action;
use dedlink::action::Event;
use dedlink::group::DuplicateGroup;
use dedlink::hash::ContentHash;
use dedlink::replacement::Canonical;
use dedlink::replacement::GroupOutcome;
use dedlink::replacement::MemberOutcome;
use dedlink::replacement::MemberStep;
use dedlink::replacement::ReplaceError;
use dedlink::replacer::Replacer;
use dedlink::store::path_for;

fn hash(tag: u8) -> ContentHash {
    ContentHash::from_bytes([tag; 64])
}

fn group(tag: u8, members: &[&str]) -> DuplicateGroup {
    DuplicateGroup { hash: hash(tag), members: members.iter().map(|m| m.to_string()).collect() }
}

fn entry(tag: u8) -> String {
    path_for(".dedlink", &hash(tag))
}

fn expect(replacer: &Replacer, action: Action) {
    assert_eq!(replacer.pending(), action);
}

#[test]
fn fresh_store_moves_the_first_member_and_links_all() {
    let mut replacer = Replacer::new(group(1, &["a.txt", "b/c.txt"]), ".dedlink");
    assert!(!replacer.is_finished());
    assert_eq!(replacer.verdict(), GroupOutcome::Pending);
    expect(&replacer, Action::ProbeEntry { path: entry(1) });
    replacer.advance(Event::Absent);
    expect(&replacer, Action::MoveToStore { from: "a.txt".to_string(), to: entry(1) });
    replacer.advance(Event::Succeeded);
    assert_eq!(replacer.canonical(), Canonical::Moved);
    assert_eq!(replacer.member_step(0), MemberStep::AlreadyMoved);
    assert_eq!(replacer.member_step(1), MemberStep::StillPresent);
    // the moved file is linked without a probe or a removal
    expect(
        &replacer,
        Action::LinkMember { target: entry(1), link: "a.txt".to_string() },
    );
    replacer.advance(Event::Succeeded);
    expect(&replacer, Action::Rehash { path: "a.txt".to_string() });
    replacer.advance(Event::Hashed(hash(1)));
    assert_eq!(replacer.outcomes(), &vec![MemberOutcome::Linked]);
    expect(&replacer, Action::ProbeMember { path: "b/c.txt".to_string() });
    replacer.advance(Event::Present);
    expect(&replacer, Action::RemoveMember { path: "b/c.txt".to_string() });
    replacer.advance(Event::Succeeded);
    expect(
        &replacer,
        Action::LinkMember { target: format!("../{}", entry(1)), link: "b/c.txt".to_string() },
    );
    replacer.advance(Event::Succeeded);
    expect(&replacer, Action::Rehash { path: "b/c.txt".to_string() });
    replacer.advance(Event::Hashed(hash(1)));
    assert!(replacer.is_finished());
    expect(&replacer, Action::Finished);
    assert_eq!(replacer.outcomes(), &vec![MemberOutcome::Linked, MemberOutcome::Linked]);
    assert_eq!(replacer.failure(), None);
    assert_eq!(replacer.verdict(), GroupOutcome::Deduplicated);
}

#[test]
fn existing_entry_is_left_alone_and_the_first_member_is_a_plain_duplicate() {
    let mut replacer = Replacer::new(group(2, &["a.txt", "b.txt"]), ".dedlink");
    replacer.advance(Event::Present);
    assert_eq!(replacer.canonical(), Canonical::Found);
    assert_eq!(replacer.member_step(0), MemberStep::StillPresent);
    expect(&replacer, Action::ProbeMember { path: "a.txt".to_string() });
    replacer.advance(Event::Present);
    expect(&replacer, Action::RemoveMember { path: "a.txt".to_string() });
    replacer.advance(Event::Succeeded);
    expect(&replacer, Action::LinkMember { target: entry(2), link: "a.txt".to_string() });
    replacer.advance(Event::Succeeded);
    replacer.advance(Event::Hashed(hash(2)));
    expect(&replacer, Action::ProbeMember { path: "b.txt".to_string() });
    replacer.advance(Event::Present);
    replacer.advance(Event::Succeeded);
    replacer.advance(Event::Succeeded);
    replacer.advance(Event::Hashed(hash(2)));
    assert_eq!(replacer.verdict(), GroupOutcome::Deduplicated);
}

#[test]
fn member_that_is_gone_is_linked_without_removal() {
    let mut replacer = Replacer::new(group(3, &["a.txt", "b.txt"]), ".dedlink");
    replacer.advance(Event::Present);
    expect(&replacer, Action::ProbeMember { path: "a.txt".to_string() });
    replacer.advance(Event::Absent);
    expect(&replacer, Action::LinkMember { target: entry(3), link: "a.txt".to_string() });
}

#[test]
fn group_of_one_is_never_touched() {
    let mut replacer = Replacer::new(group(4, &["only.txt"]), ".dedlink");
    assert!(replacer.is_finished());
    expect(&replacer, Action::Finished);
    assert_eq!(replacer.verdict(), GroupOutcome::SkippedUnique);
    assert_eq!(replacer.outcomes(), &vec![MemberOutcome::Untouched]);
    for event in [Event::Present, Event::Absent, Event::Succeeded, Event::Failed, Event::Hashed(hash(4))] {
        replacer.advance(event);
        expect(&replacer, Action::Finished);
        assert_eq!(replacer.outcomes(), &vec![MemberOutcome::Untouched]);
        assert_eq!(replacer.canonical(), Canonical::Unknown);
    }
}

#[test]
fn group_of_none_is_done_at_once() {
    let replacer = Replacer::new(group(4, &[]), ".dedlink");
    assert!(replacer.is_finished());
    assert_eq!(replacer.verdict(), GroupOutcome::SkippedUnique);
    assert!(replacer.outcomes().is_empty());
}

#[test]
fn failed_probe_of_the_store_ends_the_group() {
    let mut replacer = Replacer::new(group(5, &["a.txt", "b.txt"]), ".dedlink");
    replacer.advance(Event::Failed);
    assert!(replacer.is_finished());
    assert_eq!(replacer.failure(), Some(ReplaceError::StoreIo));
    assert_eq!(replacer.verdict(), GroupOutcome::Failed(ReplaceError::StoreIo));
    assert_eq!(replacer.outcomes(), &vec![MemberOutcome::Untouched, MemberOutcome::Untouched]);
}

#[test]
fn failed_move_ends_the_group_with_nothing_touched() {
    let mut replacer = Replacer::new(group(5, &["a.txt", "b.txt", "c.txt"]), ".dedlink");
    replacer.advance(Event::Absent);
    replacer.advance(Event::Failed);
    assert!(replacer.is_finished());
    assert_eq!(replacer.canonical(), Canonical::Unknown);
    assert_eq!(replacer.failure(), Some(ReplaceError::StoreIo));
    assert_eq!(replacer.outcomes(), &vec![MemberOutcome::Untouched; 3]);
}

#[test]
fn member_without_relative_path_fails_alone() {
    // the second member is absolute, the store relative: no relative path
    let mut replacer = Replacer::new(group(6, &["a.txt", "/mnt/other/b.txt", "c.txt"]), ".dedlink");
    replacer.advance(Event::Absent);
    replacer.advance(Event::Succeeded);
    replacer.advance(Event::Succeeded);
    replacer.advance(Event::Hashed(hash(6)));
    // the absolute member is passed over, the third is at work
    assert_eq!(replacer.outcomes(), &vec![MemberOutcome::Linked, MemberOutcome::NoRelativePath]);
    expect(&replacer, Action::ProbeMember { path: "c.txt".to_string() });
    replacer.advance(Event::Present);
    replacer.advance(Event::Succeeded);
    replacer.advance(Event::Succeeded);
    replacer.advance(Event::Hashed(hash(6)));
    assert!(replacer.is_finished());
    assert_eq!(
        replacer.outcomes(),
        &vec![MemberOutcome::Linked, MemberOutcome::NoRelativePath, MemberOutcome::Linked]
    );
    assert_eq!(replacer.failure(), None);
    assert_eq!(replacer.verdict(), GroupOutcome::Failed(ReplaceError::NoRelativePath));
}

#[test]
fn all_members_without_relative_path() {
    let mut replacer = Replacer::new(group(6, &["/x/a.txt", "/y/b.txt"]), ".dedlink");
    replacer.advance(Event::Present);
    assert!(replacer.is_finished());
    assert_eq!(replacer.outcomes(), &vec![MemberOutcome::NoRelativePath; 2]);
    assert_eq!(replacer.verdict(), GroupOutcome::Failed(ReplaceError::NoRelativePath));
}

#[test]
fn failed_removal_or_link_fails_that_member_only() {
    let mut replacer = Replacer::new(group(7, &["a.txt", "b.txt", "c.txt", "d.txt"]), ".dedlink");
    replacer.advance(Event::Present);
    // a.txt: the probe fails
    replacer.advance(Event::Failed);
    expect(&replacer, Action::ProbeMember { path: "b.txt".to_string() });
    // b.txt: the removal fails
    replacer.advance(Event::Present);
    replacer.advance(Event::Failed);
    expect(&replacer, Action::ProbeMember { path: "c.txt".to_string() });
    // c.txt: the link fails
    replacer.advance(Event::Absent);
    replacer.advance(Event::Failed);
    expect(&replacer, Action::ProbeMember { path: "d.txt".to_string() });
    replacer.advance(Event::Present);
    replacer.advance(Event::Succeeded);
    replacer.advance(Event::Succeeded);
    replacer.advance(Event::Hashed(hash(7)));
    assert_eq!(
        replacer.outcomes(),
        &vec![
            MemberOutcome::LinkIo,
            MemberOutcome::LinkIo,
            MemberOutcome::LinkIo,
            MemberOutcome::Linked
        ]
    );
    assert_eq!(replacer.failure(), None);
    assert_eq!(replacer.verdict(), GroupOutcome::Failed(ReplaceError::LinkIo));
}

#[test]
fn integrity_mismatch_ends_the_group() {
    let mut replacer = Replacer::new(group(8, &["a.txt", "b.txt", "c.txt"]), ".dedlink");
    replacer.advance(Event::Absent);
    replacer.advance(Event::Succeeded);
    replacer.advance(Event::Succeeded);
    replacer.advance(Event::Hashed(hash(9)));
    assert!(replacer.is_finished());
    assert_eq!(replacer.failure(), Some(ReplaceError::IntegrityMismatch));
    assert_eq!(
        replacer.outcomes(),
        &vec![MemberOutcome::IntegrityMismatch, MemberOutcome::Untouched, MemberOutcome::Untouched]
    );
    assert_eq!(replacer.verdict(), GroupOutcome::Failed(ReplaceError::IntegrityMismatch));
}

#[test]
fn unreadable_link_counts_as_integrity_mismatch() {
    let mut replacer = Replacer::new(group(8, &["a.txt", "b.txt"]), ".dedlink");
    replacer.advance(Event::Present);
    replacer.advance(Event::Present);
    replacer.advance(Event::Succeeded);
    replacer.advance(Event::Succeeded);
    replacer.advance(Event::Hashed(hash(8)));
    replacer.advance(Event::Absent);
    replacer.advance(Event::Succeeded);
    replacer.advance(Event::Failed);
    assert_eq!(replacer.failure(), Some(ReplaceError::IntegrityMismatch));
    assert_eq!(replacer.outcomes(), &vec![MemberOutcome::Linked, MemberOutcome::IntegrityMismatch]);
}

#[test]
fn integrity_mismatch_outranks_an_earlier_member_error() {
    let mut replacer = Replacer::new(group(8, &["/abs/a.txt", "b.txt", "c.txt"]), ".dedlink");
    replacer.advance(Event::Present);
    // a.txt has no relative path; b.txt is at work
    expect(&replacer, Action::ProbeMember { path: "b.txt".to_string() });
    replacer.advance(Event::Absent);
    replacer.advance(Event::Succeeded);
    replacer.advance(Event::Hashed(hash(1)));
    assert_eq!(replacer.verdict(), GroupOutcome::Failed(ReplaceError::IntegrityMismatch));
    assert_eq!(
        replacer.outcomes(),
        &vec![
            MemberOutcome::NoRelativePath,
            MemberOutcome::IntegrityMismatch,
            MemberOutcome::Untouched
        ]
    );
}

#[test]
fn an_answer_of_the_wrong_kind_counts_as_failure() {
    let mut replacer = Replacer::new(group(9, &["a.txt", "b.txt"]), ".dedlink");
    // a probe is pending; "succeeded" is no answer to it
    replacer.advance(Event::Succeeded);
    assert_eq!(replacer.failure(), Some(ReplaceError::StoreIo));
    let mut replacer = Replacer::new(group(9, &["a.txt", "b.txt"]), ".dedlink");
    replacer.advance(Event::Absent);
    // a move is pending; "present" is no answer to it
    replacer.advance(Event::Present);
    assert_eq!(replacer.failure(), Some(ReplaceError::StoreIo));
}

#[test]
fn work_on_a_group_ends_within_the_bound() {
    let names: Vec<String> = (0..5).map(|i| format!("f{i}.txt")).collect();
    let members: Vec<&str> = names.iter().map(|n| n.as_str()).collect();
    let mut replacer = Replacer::new(group(10, &members), ".dedlink");
    let mut answers = 0;
    while !replacer.is_finished() {
        let event = match replacer.pending() {
            Action::ProbeEntry { .. } => Event::Absent,
            Action::ProbeMember { .. } => Event::Present,
            Action::Rehash { .. } => Event::Hashed(hash(10)),
            _ => Event::Succeeded,
        };
        replacer.advance(event);
        answers += 1;
        assert!(answers <= 2 + 4 * 5);
    }
    // probe, move, link and rehash of the moved file, four answers for each other
    assert_eq!(answers, 2 + 2 + 4 * 4);
    assert_eq!(replacer.verdict(), GroupOutcome::Deduplicated);
}

#[test]
fn the_group_is_kept_as_given() {
    let replacer = Replacer::new(group(11, &["a.txt", "b.txt"]), ".dedlink");
    assert_eq!(replacer.group(), &group(11, &["a.txt", "b.txt"]));
}

#[test]
fn moved_source_without_relative_path_stays_in_the_store() {
    // the canonical source is absolute, the store relative
    let mut replacer = Replacer::new(group(12, &["/mnt/other/a.txt", "b.txt"]), ".dedlink");
    replacer.advance(Event::Absent);
    expect(&replacer, Action::MoveToStore { from: "/mnt/other/a.txt".to_string(), to: entry(12) });
    replacer.advance(Event::Succeeded);
    // no link can be made for the source; the second member is at work
    assert_eq!(replacer.outcomes(), &vec![MemberOutcome::NoRelativePath]);
    expect(&replacer, Action::ProbeMember { path: "b.txt".to_string() });
    replacer.advance(Event::Present);
    replacer.advance(Event::Succeeded);
    replacer.advance(Event::Succeeded);
    replacer.advance(Event::Hashed(hash(12)));
    assert_eq!(replacer.outcomes(), &vec![MemberOutcome::NoRelativePath, MemberOutcome::Linked]);
    assert_eq!(replacer.canonical(), Canonical::Moved);
    assert_eq!(replacer.verdict(), GroupOutcome::Failed(ReplaceError::NoRelativePath));
}
