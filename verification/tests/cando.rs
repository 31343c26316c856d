use can_do::cando::{CanDo, CanDoError};

// Ids used throughout: users are small numbers, groups start at 100 and
// actions are their own space of small numbers.
const USER1: u64 = 1;
const USER2: u64 = 2;
const GROUP1: u64 = 101;
const GROUP2: u64 = 102;
const GROUP3: u64 = 103;
const READ1: u64 = 1;
const READ2: u64 = 2;
const READ3: u64 = 3;
const READ4: u64 = 4;

#[test]
fn we_can_add_grantee_connections() {
    let mut can_do = CanDo::new();

    can_do.connect_grantees(USER1, USER2);

    assert_eq!(2, can_do.grantee_count());

    let user1_parents = can_do.grantee_parent_ids(USER1).unwrap();
    let user1_children = can_do.grantee_child_ids(USER1).unwrap();
    assert_eq!(0, user1_children.len());
    assert_eq!(1, user1_parents.len());

    let user2_parents = can_do.grantee_parent_ids(USER2).unwrap();
    let user2_children = can_do.grantee_child_ids(USER2).unwrap();
    assert_eq!(1, user2_children.len());
    assert_eq!(0, user2_parents.len());
}

#[test]
fn check_that_member_can_do_action() {
    let mut can_do = CanDo::new();

    can_do.add_grant(USER1, READ1);

    assert!(can_do.can_grantee_do(USER1, READ1).unwrap());
}

#[test]
fn check_that_member_can_not_do_action() {
    let can_do = CanDo::new();

    assert_eq!(
        Err(CanDoError::GranteeNotFound),
        can_do.can_grantee_do(USER1, READ1)
    );
}

#[test]
fn check_that_member_can_do_through_transitive_membership_action() {
    let mut can_do = CanDo::new();

    can_do.connect_grantees(USER1, GROUP1);
    can_do.connect_grantees(GROUP1, GROUP2);
    can_do.add_grant(GROUP2, READ1);

    assert!(can_do.can_grantee_do(USER1, READ1).unwrap());
}

#[test]
fn check_that_member_can_do_through_transitive_action() {
    let mut can_do = CanDo::new();

    can_do.connect_actions(READ1, READ2);
    can_do.add_grant(USER1, READ1);

    assert!(can_do.can_grantee_do(USER1, READ2).unwrap());
}

#[test]
fn we_can_remove_grantees() {
    let mut can_do = CanDo::new();

    can_do.connect_grantees(USER1, GROUP1);

    assert!(can_do.contains_grantee(USER1));
    assert!(can_do.contains_grantee(GROUP1));

    can_do.remove_grantee(USER1).unwrap();

    assert!(!can_do.contains_grantee(USER1));
    assert!(can_do.contains_grantee(GROUP1));
}

#[test]
fn removing_grantees_cuts_connections() {
    let mut can_do = CanDo::new();

    can_do.connect_grantees(USER1, GROUP1);

    let user1_parents = can_do.grantee_parent_ids(USER1).unwrap();
    assert!(user1_parents.contains(&GROUP1));

    let group1_children = can_do.grantee_child_ids(GROUP1).unwrap();
    assert!(group1_children.contains(&USER1));

    can_do.remove_grantee(USER1).unwrap();

    let group1_children = can_do.grantee_child_ids(GROUP1).unwrap();
    assert!(group1_children.is_empty());
}

#[test]
fn removing_grantees_removes_them_from_actions() {
    let mut can_do = CanDo::new();

    can_do.add_grant(USER1, READ1);

    let user1_actions = can_do.grantee_action_ids(USER1).unwrap();
    let read_holders = can_do.action_holder_ids(READ1).unwrap();
    assert!(user1_actions.contains(&READ1));
    assert!(read_holders.contains(&USER1));

    can_do.remove_grantee(USER1).unwrap();

    let read_holders = can_do.action_holder_ids(READ1).unwrap();
    assert!(read_holders.is_empty());
}

#[test]
fn removing_actions_removes_them_from_grantees() {
    let mut can_do = CanDo::new();

    can_do.add_grant(USER1, READ1);
    let user1_actions = can_do.grantee_action_ids(USER1).unwrap();
    assert!(user1_actions.contains(&READ1));

    can_do.remove_action(READ1).unwrap();

    let user1_actions = can_do.grantee_action_ids(USER1).unwrap();
    assert!(user1_actions.is_empty());
}

#[test]
fn we_can_revoke_grants() {
    let mut can_do = CanDo::new();

    can_do.add_grant(USER1, READ1);
    let user1_actions = can_do.grantee_action_ids(USER1).unwrap();
    assert!(user1_actions.contains(&READ1));

    can_do.remove_grant(USER1, READ1).unwrap();

    let user1_actions = can_do.grantee_action_ids(USER1).unwrap();
    assert!(user1_actions.is_empty());
    assert_eq!(1, can_do.action_count());
}

#[test]
fn compact_should_not_need_to_do_anything() {
    let mut can_do = CanDo::new();

    can_do.add_grant(USER1, READ1);
    can_do.add_root(USER1);
    assert_eq!(1, can_do.action_count());
    assert_eq!(1, can_do.grantee_count());

    let replays = can_do.compact();
    assert_eq!(2, replays.len());
    assert_eq!(1, can_do.action_count());
    assert_eq!(1, can_do.grantee_count());
}

#[test]
fn compact_should_remove_all_grantees() {
    let mut can_do = CanDo::new();

    can_do.connect_grantees(USER1, GROUP2);
    assert_eq!(0, can_do.action_count());
    assert_eq!(2, can_do.grantee_count());

    let replays = can_do.compact();
    assert_eq!(0, replays.len());
    assert_eq!(0, can_do.action_count());
    assert_eq!(0, can_do.grantee_count());
}

#[test]
fn compact_should_remove_all_actions() {
    let mut can_do = CanDo::new();

    can_do.connect_actions(READ1, READ2);
    can_do.connect_actions(READ2, READ3);
    assert_eq!(3, can_do.action_count());
    assert_eq!(0, can_do.grantee_count());

    let replays = can_do.compact();
    assert_eq!(0, replays.len());
    assert_eq!(0, can_do.action_count());
    assert_eq!(0, can_do.grantee_count());
}

#[test]
fn compact_should_remove_all_grantees_not_connected_to_root() {
    let mut can_do = CanDo::new();

    can_do.add_root(USER2);
    can_do.connect_grantees(USER1, GROUP3);

    assert_eq!(0, can_do.action_count());
    assert_eq!(3, can_do.grantee_count(), "We should have 3 grantees");

    let replays = can_do.compact();
    assert_eq!(
        1,
        replays.len(),
        "We should need to replay 1 Grant for user2"
    );
    assert_eq!(0, can_do.action_count());
    assert_eq!(1, can_do.grantee_count());
}

#[test]
fn compact_should_remove_group2() {
    let mut can_do = CanDo::new();

    can_do.add_grant(USER1, READ1);
    can_do.connect_grantees(USER1, GROUP1);
    can_do.connect_grantees(GROUP2, GROUP1);
    can_do.add_root(GROUP1);

    assert_eq!(1, can_do.action_count());
    assert_eq!(3, can_do.grantee_count());

    let replays = can_do.compact();
    assert_eq!(3, replays.len());
    assert_eq!(1, can_do.action_count());
    assert_eq!(2, can_do.grantee_count());
    assert!(!can_do.contains_grantee(GROUP2));
}

#[test]
fn connect_actions_should_work() {
    let mut can_do = CanDo::new();

    can_do.connect_actions(READ1, READ2);
    assert_eq!(2, can_do.action_count());

    let read1_subs = can_do.action_sub_ids(READ1).unwrap();
    let read2_supers = can_do.action_super_ids(READ2).unwrap();

    assert!(read1_subs.contains(&READ2));
    assert!(read2_supers.contains(&READ1));
}

#[test]
fn disconnect_actions_should_work() {
    let mut can_do = CanDo::new();

    can_do.connect_actions(READ1, READ2);
    can_do.disconnect_actions(READ1, READ2).unwrap();
    assert_eq!(2, can_do.action_count());

    let read1_subs = can_do.action_sub_ids(READ1).unwrap();
    let read2_supers = can_do.action_super_ids(READ2).unwrap();

    assert!(read1_subs.is_empty());
    assert!(read2_supers.is_empty());
}

#[test]
fn disconnect_actions_should_only_remove_one_action() {
    let mut can_do = CanDo::new();

    can_do.connect_actions(READ1, READ2);
    can_do.connect_actions(READ1, READ3);
    can_do.disconnect_actions(READ1, READ2).unwrap();
    assert_eq!(3, can_do.action_count());

    let read1_subs = can_do.action_sub_ids(READ1).unwrap();
    let read3_supers = can_do.action_super_ids(READ3).unwrap();

    assert!(read1_subs.contains(&READ3));
    assert!(read3_supers.contains(&READ1));
}

#[test]
fn collection_of_subaction_idx() {
    let mut can_do = CanDo::new();

    can_do.connect_actions(READ1, READ2);
    can_do.connect_actions(READ2, READ3);
    can_do.connect_actions(READ1, READ4);
    assert_eq!(4, can_do.action_count());

    let read1_index = can_do.action_index_of(READ1).unwrap();
    let read2_index = can_do.action_index_of(READ2).unwrap();
    let read3_index = can_do.action_index_of(READ3).unwrap();

    let main_action_idx = can_do.collect_main_action_idx(read3_index);
    assert_eq!(vec![read1_index, read2_index, read3_index], main_action_idx);
}

#[test]
fn connecting_grantees_twice_changes_no_answer() {
    let mut once = CanDo::new();
    once.connect_grantees(USER1, GROUP1);
    once.add_grant(GROUP1, READ1);

    let mut twice = CanDo::new();
    twice.connect_grantees(USER1, GROUP1);
    twice.connect_grantees(USER1, GROUP1);
    twice.add_grant(GROUP1, READ1);

    assert_eq!(
        once.can_grantee_do(USER1, READ1).unwrap(),
        twice.can_grantee_do(USER1, READ1).unwrap()
    );
    assert_eq!(once.grantee_count(), twice.grantee_count());
}

#[test]
fn connecting_actions_twice_changes_no_answer() {
    let mut once = CanDo::new();
    once.connect_actions(READ1, READ2);
    once.add_grant(USER1, READ1);

    let mut twice = CanDo::new();
    twice.connect_actions(READ1, READ2);
    twice.connect_actions(READ1, READ2);
    twice.add_grant(USER1, READ1);

    assert_eq!(
        once.can_grantee_do(USER1, READ2).unwrap(),
        twice.can_grantee_do(USER1, READ2).unwrap()
    );
    assert_eq!(once.action_count(), twice.action_count());
}

#[test]
fn cycles_among_grantees_and_actions_still_answer() {
    let mut can_do = CanDo::new();

    can_do.connect_grantees(USER1, GROUP1);
    can_do.connect_grantees(GROUP1, GROUP2);
    can_do.connect_grantees(GROUP2, USER1);
    can_do.connect_actions(READ1, READ2);
    can_do.connect_actions(READ2, READ3);
    can_do.connect_actions(READ3, READ1);
    can_do.add_grant(GROUP2, READ1);

    assert!(can_do.can_grantee_do(USER1, READ2).unwrap());
    assert!(can_do.can_grantee_do(GROUP1, READ3).unwrap());
    assert!(!can_do.can_grantee_do(USER2, READ1).unwrap_or(false));
}

#[test]
fn unknown_action_is_reported() {
    let mut can_do = CanDo::new();
    can_do.add_grant(USER1, READ1);

    assert_eq!(
        Err(CanDoError::ActionNotFound),
        can_do.can_grantee_do(USER1, READ2)
    );
    assert_eq!(Err(CanDoError::ActionNotFound), can_do.remove_action(READ2));
    assert_eq!(
        Err(CanDoError::GranteeNotFound),
        can_do.remove_grantee(USER2)
    );
    assert_eq!(
        Err(CanDoError::GranteeNotFound),
        can_do.disconnect_grantees(USER2, USER1)
    );
    assert_eq!(
        Err(CanDoError::ActionNotFound),
        can_do.disconnect_actions(READ1, READ2)
    );
    assert_eq!(
        Err(CanDoError::GranteeNotFound),
        can_do.remove_grant(USER2, READ1)
    );
    assert_eq!(
        Err(CanDoError::ActionNotFound),
        can_do.remove_grant(USER1, READ2)
    );
}

#[test]
fn the_replay_log_rebuilds_the_compacted_graph() {
    let mut can_do = CanDo::new();
    can_do.add_grant(USER1, READ1);
    can_do.connect_grantees(USER1, GROUP1);
    can_do.connect_grantees(GROUP2, GROUP1);
    can_do.add_root(GROUP1);
    can_do.connect_actions(READ1, READ2);

    let replays = can_do.compact();
    let rebuilt = can_do::rebuild::rebuild_from(&replays);

    assert_eq!(can_do.grantee_count(), rebuilt.grantee_count());
    assert_eq!(can_do.action_count(), rebuilt.action_count());
    assert_eq!(
        can_do.can_grantee_do(USER1, READ1),
        rebuilt.can_grantee_do(USER1, READ1)
    );
    assert_eq!(
        can_do.can_grantee_do(USER1, READ2),
        rebuilt.can_grantee_do(USER1, READ2)
    );
    // Applying the same records in reverse order rebuilds the same graph.
    let mut reversed = replays.clone();
    reversed.reverse();
    let rebuilt2 = can_do::rebuild::rebuild_from(&reversed);
    assert_eq!(rebuilt.grantee_count(), rebuilt2.grantee_count());
    assert_eq!(
        rebuilt.can_grantee_do(USER1, READ2),
        rebuilt2.can_grantee_do(USER1, READ2)
    );
}

#[test]
fn the_replay_log_is_emitted_in_canonical_order_without_duplicates() {
    let mut can_do = CanDo::new();
    can_do.add_grant(USER1, READ1);
    can_do.connect_grantees(USER1, GROUP1);
    can_do.connect_grantees(USER1, GROUP1);
    can_do.add_root(GROUP1);
    can_do.connect_actions(READ1, READ2);
    can_do.add_grant(GROUP1, READ2);

    let replays = can_do.compact();

    // One record per fact, despite the doubled connection.
    assert_eq!(
        vec![
            can_do::cando::Replay::ConnectGrantees(USER1, GROUP1),
            can_do::cando::Replay::ConnectActions(READ1, READ2),
            can_do::cando::Replay::Grant(USER1, READ1),
            can_do::cando::Replay::Grant(GROUP1, READ2),
            can_do::cando::Replay::Root(GROUP1),
        ]
        .len(),
        replays.len()
    );
    let mut seen_kinds: Vec<u32> = Vec::new();
    for entry in &replays {
        let kind = match entry {
            can_do::cando::Replay::ConnectGrantees(_, _) => 0,
            can_do::cando::Replay::ConnectActions(_, _) => 1,
            can_do::cando::Replay::Grant(_, _) => 2,
            can_do::cando::Replay::Root(_) => 3,
        };
        if let Some(last) = seen_kinds.last() {
            assert!(*last <= kind);
        }
        seen_kinds.push(kind);
    }
}
