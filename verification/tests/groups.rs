use chat_core::group::Group;
use chat_core::group::GroupTable;

#[test]
fn fresh_table_has_no_groups() {
    let table = GroupTable::new();
    assert!(table.get("dogs").is_none());
}

#[test]
fn get_does_not_create() {
    let table = GroupTable::new();
    assert!(table.get("dogs").is_none());
    // a lookup must not have created the group
    assert!(table.get("dogs").is_none());
}

#[test]
fn join_creates_and_registers() {
    let mut table = GroupTable::new();
    table.join("dogs", 1);
    let group = table.get("dogs").expect("group should exist after a join");
    assert_eq!(group.name(), "dogs");
    assert_eq!(group.members().as_slice(), &[1]);
}

#[test]
fn join_same_name_reuses_the_group() {
    let mut table = GroupTable::new();
    table.join("dogs", 1);
    table.join("dogs", 2);
    let group = table.get("dogs").expect("group should exist");
    assert_eq!(group.members().as_slice(), &[1, 2]);
}

#[test]
fn get_or_create_is_idempotent() {
    let mut table = GroupTable::new();
    table.get_or_create("dogs");
    table.join("dogs", 4);
    // a second resolve finds the same group, members intact
    let again = table.get_or_create("dogs");
    assert_eq!(again.name(), "dogs");
    assert_eq!(again.members().as_slice(), &[4]);
}

#[test]
fn duplicate_join_is_kept() {
    let mut group = Group::new(String::from("dogs"));
    group.join(7);
    group.join(7);
    assert_eq!(group.members().as_slice(), &[7, 7]);
}

#[test]
fn groups_are_independent() {
    let mut table = GroupTable::new();
    table.join("dogs", 1);
    table.join("cats", 2);
    assert_eq!(table.get("dogs").unwrap().members().as_slice(), &[1]);
    assert_eq!(table.get("cats").unwrap().members().as_slice(), &[2]);
}

#[test]
fn post_fans_out_to_every_member_once() {
    let mut table = GroupTable::new();
    table.join("dogs", 1);
    table.join("dogs", 2);
    table.join("dogs", 3);
    let group = table.get("dogs").unwrap();
    let deliveries = group.post("woof");
    let targets: Vec<u64> = deliveries.iter().map(|d| d.0).collect();
    assert_eq!(targets, vec![1, 2, 3]);
    for (_, frame) in deliveries {
        match frame {
            chat_core::frame::FromServer::Message { group_name, message } => {
                assert_eq!(group_name, "dogs");
                assert_eq!(message, "woof");
            }
            _ => panic!("expected a Message"),
        }
    }
}
