use matrix_contacts::response::{
    parse_room_members, parse_room_members_response, parse_user_membership_response,
    parse_user_rooms, members_from_response, rooms_from_response, Member, Room,
};

#[test]
fn test_user_membership_response_deserialization() {
    let json = r#"{
            "joined_rooms": [
                "!DEOhdyEateKRHcRuJX:matrix.fdn.fr",
                "!xqCsWJjzgamGppeBiy:matrix.fdn.fr",
                "!YmaFJxbsfKeXAjKiVl:matrix.fdn.fr",
                "!uNTFtzaiShUjyOsILl:matrix.fdn.fr",
                "!amKyxBfzQfKtaCLRrL:matrix.fdn.fr",
                "!DNBNEtOjLJqAGdAlqx:matrix.fdn.fr",
                "!SGMazuMtZjkjOedPTQ:matrix.fdn.fr"
            ],
            "total": 7
        }"#;

    let response = parse_user_membership_response(json.as_bytes())
        .expect("Failed to deserialize UserMembershipResponse");

    assert_eq!(response.joined_rooms.len(), 7);
    assert_eq!(response.total, 7);
    assert_eq!(
        response.joined_rooms[0],
        b"!DEOhdyEateKRHcRuJX:matrix.fdn.fr".to_vec()
    );
}

#[test]
fn test_room_id_conversion() {
    let json = r#"{
            "joined_rooms": [
                "!room1:example.com",
                "!room2:example.com"
            ],
            "total": 2
        }"#;

    let response = parse_user_membership_response(json.as_bytes())
        .expect("Failed to deserialize UserMembershipResponse");

    let rooms: Vec<Room> = rooms_from_response(&response);

    assert_eq!(rooms.len(), 2);
    assert_eq!(rooms[0].room_id, b"!room1:example.com".to_vec());
    assert_eq!(rooms[1].room_id, b"!room2:example.com".to_vec());
}

#[test]
fn test_empty_membership_response() {
    let json = r#"{
            "joined_rooms": [],
            "total": 0
        }"#;

    let response = parse_user_membership_response(json.as_bytes())
        .expect("Failed to deserialize UserMembershipResponse");

    assert_eq!(response.joined_rooms.len(), 0);
    assert_eq!(response.total, 0);
}

#[test]
fn test_room_members_response_deserialization() {
    let json = r#"{
            "members": [
                "@user1:example.com",
                "@user2:example.com",
                "@user3:example.com"
            ]
        }"#;

    let response = parse_room_members_response(json.as_bytes())
        .expect("Failed to deserialize RoomMembersResponse");

    assert_eq!(response.members.len(), 3);
    assert_eq!(response.members[0], b"@user1:example.com".to_vec());
    assert_eq!(response.members[1], b"@user2:example.com".to_vec());
    assert_eq!(response.members[2], b"@user3:example.com".to_vec());
}

#[test]
fn test_empty_room_members_response() {
    let json = r#"{
            "members": []
        }"#;

    let response = parse_room_members_response(json.as_bytes())
        .expect("Failed to deserialize RoomMembersResponse");

    assert_eq!(response.members.len(), 0);
}

#[test]
fn test_room_members_to_member_conversion() {
    let json = r#"{
            "members": [
                "@alice:example.com",
                "@bob:example.com"
            ]
        }"#;

    let response = parse_room_members_response(json.as_bytes())
        .expect("Failed to deserialize RoomMembersResponse");

    let members: Vec<Member> = members_from_response(&response);

    assert_eq!(members.len(), 2);
    assert_eq!(members[0].user_id, b"@alice:example.com".to_vec());
    assert_eq!(members[1].user_id, b"@bob:example.com".to_vec());
}

#[test]
fn test_rooms_record_array_shape() {
    let json = r#"[
            {"room_id": "!a:example.com"},
            {"name": "Lobby", "room_id": "!b:example.com", "joined": true}
        ]"#;

    let rooms = parse_user_rooms(json.as_bytes()).expect("record array shape must parse");

    assert_eq!(rooms.len(), 2);
    assert_eq!(rooms[0].room_id, b"!a:example.com".to_vec());
    assert_eq!(rooms[1].room_id, b"!b:example.com".to_vec());
}

#[test]
fn test_members_record_array_shape() {
    let json = r#"[
            {"user_id": "@a:example.com", "display_name": null},
            {"avatar_url": "mxc://x", "user_id": "@b:example.com"}
        ]"#;

    let members = parse_room_members(json.as_bytes()).expect("record array shape must parse");

    assert_eq!(members.len(), 2);
    assert_eq!(members[0].user_id, b"@a:example.com".to_vec());
    assert_eq!(members[1].user_id, b"@b:example.com".to_vec());
}

#[test]
fn test_members_object_shape_through_either_reader() {
    let json = r#"{"members": ["@only:example.com"]}"#;

    let members = parse_room_members(json.as_bytes()).expect("object shape must parse");

    assert_eq!(members.len(), 1);
    assert_eq!(members[0].user_id, b"@only:example.com".to_vec());
}

#[test]
fn test_unknown_fields_skipped() {
    let json = r#"{
            "extra": {"deep": [1.5e3, -0.25, {"k": "v"}], "empty": []},
            "joined_rooms": ["!a:example.com"],
            "flag": true,
            "note": null,
            "count": false,
            "total": 1
        }"#;

    let response = parse_user_membership_response(json.as_bytes())
        .expect("unknown fields must be tolerated");

    assert_eq!(response.joined_rooms.len(), 1);
    assert_eq!(response.total, 1);
}

#[test]
fn test_string_escapes_decoded() {
    let json = r#"{"members": ["a\"b\\c\nd\t/"]}"#;

    let response = parse_room_members_response(json.as_bytes()).expect("escapes must decode");

    assert_eq!(response.members.len(), 1);
    assert_eq!(response.members[0], b"a\"b\\c\nd\t/".to_vec());
}

#[test]
fn test_unicode_escapes_decoded() {
    let json = r#"{"members": ["\u0041\u00e9\u20ac"]}"#;
    let response = parse_room_members_response(json.as_bytes())
        .expect("unicode escapes must decode");
    assert_eq!(response.members[0], "A\u{e9}\u{20ac}".as_bytes().to_vec());
}

#[test]
fn test_surrogate_pair_decoded() {
    let json = r#"{"members": ["\ud83d\ude00"]}"#;
    let response = parse_room_members_response(json.as_bytes())
        .expect("surrogate pairs must decode");
    assert_eq!(response.members[0], "\u{1f600}".as_bytes().to_vec());
}

#[test]
fn test_lone_surrogate_rejected() {
    let json = r#"{"members": ["\ud83d"]}"#;
    assert!(parse_room_members(json.as_bytes()).is_none());
    let json2 = r#"{"members": ["\ude00\ud83d"]}"#;
    assert!(parse_room_members(json2.as_bytes()).is_none());
}

#[test]
fn test_truncated_body_rejected() {
    let json = r#"{"members": ["@a:example.com""#;
    assert!(parse_room_members(json.as_bytes()).is_none());
    assert!(parse_user_rooms(json.as_bytes()).is_none());
}

#[test]
fn test_wrong_member_list_type_rejected() {
    let json = r#"{"members": "nope"}"#;
    assert!(parse_room_members(json.as_bytes()).is_none());
}

#[test]
fn test_duplicate_field_rejected() {
    let json = r#"{"members": [], "members": []}"#;
    assert!(parse_room_members_response(json.as_bytes()).is_none());
    let json2 = r#"{"joined_rooms": [], "total": 0, "total": 0}"#;
    assert!(parse_user_membership_response(json2.as_bytes()).is_none());
}

#[test]
fn test_missing_required_field_rejected() {
    let json = r#"{"joined_rooms": []}"#;
    assert!(parse_user_membership_response(json.as_bytes()).is_none());
    let json2 = r#"{"total": 0}"#;
    assert!(parse_user_membership_response(json2.as_bytes()).is_none());
    let json3 = r#"{}"#;
    assert!(parse_room_members_response(json3.as_bytes()).is_none());
}

#[test]
fn test_total_out_of_range_rejected() {
    let json = r#"{"joined_rooms": [], "total": 99999999999999999999999999}"#;
    assert!(parse_user_membership_response(json.as_bytes()).is_none());
}

#[test]
fn test_total_with_leading_zero_rejected() {
    let json = r#"{"joined_rooms": [], "total": 01}"#;
    assert!(parse_user_membership_response(json.as_bytes()).is_none());
}

#[test]
fn test_negative_or_fractional_total_rejected() {
    let json = r#"{"joined_rooms": [], "total": -1}"#;
    assert!(parse_user_membership_response(json.as_bytes()).is_none());
    let json2 = r#"{"joined_rooms": [], "total": 7.0}"#;
    assert!(parse_user_membership_response(json2.as_bytes()).is_none());
}

#[test]
fn test_trailing_garbage_rejected() {
    let json = r#"{"members": []} x"#;
    assert!(parse_room_members_response(json.as_bytes()).is_none());
}

#[test]
fn test_record_missing_identifier_rejected() {
    let json = r#"[{"name": "no id here"}]"#;
    assert!(parse_user_rooms(json.as_bytes()).is_none());
    assert!(parse_room_members(json.as_bytes()).is_none());
}
