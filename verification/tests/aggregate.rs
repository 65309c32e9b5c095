use matrix_contacts::contacts::ContactSet;
use matrix_contacts::report::{build_report, Report};
use matrix_contacts::response::{parse_room_members, parse_user_rooms, Member};

fn member(id: &str) -> Member {
    Member { user_id: id.as_bytes().to_vec() }
}

#[test]
fn test_aggregation_excludes_self_and_dedups() {
    // rooms {A, B} and {B, C} for target B leave exactly {A, C}
    let mut contacts = ContactSet::new(b"B".to_vec());
    contacts.add_members(&vec![member("A"), member("B")]);
    contacts.add_members(&vec![member("B"), member("C")]);
    let sorted = contacts.into_sorted();
    assert_eq!(sorted, vec![b"A".to_vec(), b"C".to_vec()]);
}

#[test]
fn test_output_sorted_alphabetically() {
    let mut contacts = ContactSet::new(b"@me:x".to_vec());
    contacts.add_members(&vec![member("@bob:x"), member("@alice:x"), member("@carol:x")]);
    let sorted = contacts.into_sorted();
    assert_eq!(
        sorted,
        vec![b"@alice:x".to_vec(), b"@bob:x".to_vec(), b"@carol:x".to_vec()]
    );
}

#[test]
fn test_no_rooms_report() {
    let json = r#"{"joined_rooms": [], "total": 0}"#;
    let rooms = parse_user_rooms(json.as_bytes()).expect("empty room list must parse");
    assert_eq!(rooms.len(), 0);
    let contacts = ContactSet::new(b"@me:x".to_vec());
    let report = build_report(&rooms, contacts);
    assert!(matches!(report, Report::NoRooms));
}

#[test]
fn test_empty_members_contribute_nothing() {
    let mut contacts = ContactSet::new(b"@me:x".to_vec());
    contacts.add_members(&vec![member("@a:x")]);
    contacts.add_members(&vec![]);
    let sorted = contacts.into_sorted();
    assert_eq!(sorted, vec![b"@a:x".to_vec()]);
}

#[test]
fn test_malformed_room_response_skipped() {
    // one room's response fails to parse; the other room's members survive
    let good = r#"{"members": ["@a:x", "@me:x"]}"#;
    let bad = r#"{"members": ["@lost:x""#;
    let mut contacts = ContactSet::new(b"@me:x".to_vec());
    for body in [good, bad] {
        match parse_room_members(body.as_bytes()) {
            Some(members) => contacts.add_members(&members),
            None => {},
        }
    }
    assert!(parse_room_members(bad.as_bytes()).is_none());
    let sorted = contacts.into_sorted();
    assert_eq!(sorted, vec![b"@a:x".to_vec()]);
}

#[test]
fn test_report_lists_contacts_when_rooms_exist() {
    let json = r#"[{"room_id": "!a:x"}]"#;
    let rooms = parse_user_rooms(json.as_bytes()).expect("one room must parse");
    let mut contacts = ContactSet::new(b"@me:x".to_vec());
    contacts.add_members(&vec![member("@b:x"), member("@me:x"), member("@b:x")]);
    let report = build_report(&rooms, contacts);
    match report {
        Report::Contacts(list) => assert_eq!(list, vec![b"@b:x".to_vec()]),
        Report::NoRooms => panic!("rooms were present"),
    }
}

#[test]
fn test_room_of_only_the_target_leaves_no_contacts() {
    let mut contacts = ContactSet::new(b"@me:x".to_vec());
    contacts.add_members(&vec![member("@me:x")]);
    let sorted = contacts.into_sorted();
    assert_eq!(sorted.len(), 0);
}

#[test]
fn test_duplicates_within_one_room_count_once() {
    let mut contacts = ContactSet::new(b"@me:x".to_vec());
    contacts.add_members(&vec![member("@a:x"), member("@a:x"), member("@a:x")]);
    let sorted = contacts.into_sorted();
    assert_eq!(sorted, vec![b"@a:x".to_vec()]);
}
