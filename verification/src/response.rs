//! The two query responses of the administrative interface.
//!
//! A "list rooms for a user" response is either an object
//! `{"joined_rooms": [room, ...], "total": count}` or an array of records
//! `[{"room_id": room, ...}, ...]`. A "list members of a room" response is
//! either an object `{"members": [identity, ...]}` or an array of records
//! `[{"user_id": identity, ...}, ...]`. Fields the tool does not read are
//! tolerated and skipped; a required field must appear exactly once.
//!
//! Each reading function returns `Some` exactly on the well-formed bodies of
//! its shape, and then yields every identifier of the body, in the body's
//! order, byte for byte.

use vstd::prelude::*;

use crate::json::{
    COLON, COMMA, LBRACE, LBRACKET, RBRACE, RBRACKET, parse_string, parse_string_array,
    parse_uint, skip_value, skip_ws, spec_parse_string, spec_parse_string_array, spec_parse_uint,
    spec_skip_value, spec_skip_ws, views_of,
};
use crate::order::{bytes_eq, clone_bytes};

verus! {

/// A room identifier.
pub struct Room {
    pub room_id: Vec<u8>,
}

/// A member identity.
pub struct Member {
    pub user_id: Vec<u8>,
}

/// The object shape of a "list rooms for a user" response.
pub struct UserMembershipResponse {
    pub joined_rooms: Vec<Vec<u8>>,
    pub total: usize,
}

/// The object shape of a "list members of a room" response.
pub struct RoomMembersResponse {
    pub members: Vec<Vec<u8>>,
}

pub open spec fn room_ids(v: Seq<Room>) -> Seq<Seq<u8>> {
    v.map_values(|r: Room| r.room_id@)
}

pub open spec fn member_ids(v: Seq<Member>) -> Seq<Seq<u8>> {
    v.map_values(|m: Member| m.user_id@)
}

pub open spec fn key_joined_rooms() -> Seq<u8> {
    seq![0x6a, 0x6f, 0x69, 0x6e, 0x65, 0x64, 0x5f, 0x72, 0x6f, 0x6f, 0x6d, 0x73]
}

pub open spec fn key_total() -> Seq<u8> {
    seq![0x74, 0x6f, 0x74, 0x61, 0x6c]
}

pub open spec fn key_members() -> Seq<u8> {
    seq![0x6d, 0x65, 0x6d, 0x62, 0x65, 0x72, 0x73]
}

pub open spec fn key_room_id() -> Seq<u8> {
    seq![0x72, 0x6f, 0x6f, 0x6d, 0x5f, 0x69, 0x64]
}

pub open spec fn key_user_id() -> Seq<u8> {
    seq![0x75, 0x73, 0x65, 0x72, 0x5f, 0x69, 0x64]
}

pub open spec fn opt_views(o: Option<Vec<Vec<u8>>>) -> Option<Seq<Seq<u8>>> {
    match o {
        Some(v) => Some(views_of(v@)),
        None => None,
    }
}

pub open spec fn opt_count(o: Option<usize>) -> Option<int> {
    match o {
        Some(v) => Some(v as int),
        None => None,
    }
}

/// The fields of the membership object from the key at `q` up to and past
/// the closing brace. `rooms` and `total` hold the required fields already
/// seen; each may appear only once, and both must appear. The result is the
/// room list, the count, and the end position.
pub open spec fn spec_membership_fields(
    s: Seq<u8>,
    q: int,
    rooms: Option<Seq<Seq<u8>>>,
    total: Option<int>,
) -> Option<(Seq<Seq<u8>>, int, int)>
    decreases s.len() - q,
{
    match spec_parse_string(s, q) {
        None => None,
        Some((key, j)) => {
            let t = spec_skip_ws(s, j);
            if !(t < s.len() && s[t] == COLON) {
                None
            } else {
                let u = spec_skip_ws(s, t + 1);
                if u <= q || u > s.len() {
                    // unreachable: keeps the measure in range
                    None
                } else if key == key_joined_rooms() {
                    if rooms is Some {
                        None
                    } else {
                        match spec_parse_string_array(s, u) {
                            None => None,
                            Some((xs, v)) => if v <= q || v > s.len() {
                                None
                            } else {
                                spec_membership_tail(s, v, Some(xs), total)
                            },
                        }
                    }
                } else if key == key_total() {
                    if total is Some {
                        None
                    } else {
                        match spec_parse_uint(s, u) {
                            None => None,
                            Some((tv, v)) => if tv > usize::MAX {
                                None
                            } else if v <= q || v > s.len() {
                                None
                            } else {
                                spec_membership_tail(s, v, rooms, Some(tv))
                            },
                        }
                    }
                } else {
                    match spec_skip_value(s, u) {
                        None => None,
                        Some(v) => if v <= q || v > s.len() {
                            None
                        } else {
                            spec_membership_tail(s, v, rooms, total)
                        },
                    }
                }
            }
        },
    }
}

/// After a field's value ending at `v`: a comma and a further field, or the
/// closing brace, at which both required fields must have been seen.
pub open spec fn spec_membership_tail(
    s: Seq<u8>,
    v: int,
    rooms: Option<Seq<Seq<u8>>>,
    total: Option<int>,
) -> Option<(Seq<Seq<u8>>, int, int)>
    decreases s.len() - v,
{
    let w = spec_skip_ws(s, v);
    if w < s.len() && s[w] == COMMA {
        let x = spec_skip_ws(s, w + 1);
        if x <= v || x > s.len() {
            None
        } else {
            spec_membership_fields(s, x, rooms, total)
        }
    } else if w < s.len() && s[w] == RBRACE {
        match (rooms, total) {
            (Some(r), Some(tv)) => Some((r, tv, w + 1)),
            _ => None,
        }
    } else {
        None
    }
}

/// A whole membership document: the object shape of the rooms response,
/// with nothing but whitespace around it.
pub open spec fn spec_membership_doc(s: Seq<u8>) -> Option<(Seq<Seq<u8>>, int)> {
    let i = spec_skip_ws(s, 0);
    if i < s.len() && s[i] == LBRACE {
        let q = spec_skip_ws(s, i + 1);
        match spec_membership_fields(s, q, None, None) {
            None => None,
            Some((rooms, total, e)) => if spec_skip_ws(s, e) == s.len() {
                Some((rooms, total))
            } else {
                None
            },
        }
    } else {
        None
    }
}

/// The fields of the members object, as for the membership object but with
/// a single required field.
pub open spec fn spec_members_fields(s: Seq<u8>, q: int, members: Option<Seq<Seq<u8>>>) -> Option<
    (Seq<Seq<u8>>, int),
>
    decreases s.len() - q,
{
    match spec_parse_string(s, q) {
        None => None,
        Some((key, j)) => {
            let t = spec_skip_ws(s, j);
            if !(t < s.len() && s[t] == COLON) {
                None
            } else {
                let u = spec_skip_ws(s, t + 1);
                if u <= q || u > s.len() {
                    None
                } else if key == key_members() {
                    if members is Some {
                        None
                    } else {
                        match spec_parse_string_array(s, u) {
                            None => None,
                            Some((xs, v)) => if v <= q || v > s.len() {
                                None
                            } else {
                                spec_members_tail(s, v, Some(xs))
                            },
                        }
                    }
                } else {
                    match spec_skip_value(s, u) {
                        None => None,
                        Some(v) => if v <= q || v > s.len() {
                            None
                        } else {
                            spec_members_tail(s, v, members)
                        },
                    }
                }
            }
        },
    }
}

pub open spec fn spec_members_tail(s: Seq<u8>, v: int, members: Option<Seq<Seq<u8>>>) -> Option<
    (Seq<Seq<u8>>, int),
>
    decreases s.len() - v,
{
    let w = spec_skip_ws(s, v);
    if w < s.len() && s[w] == COMMA {
        let x = spec_skip_ws(s, w + 1);
        if x <= v || x > s.len() {
            None
        } else {
            spec_members_fields(s, x, members)
        }
    } else if w < s.len() && s[w] == RBRACE {
        match members {
            Some(ms) => Some((ms, w + 1)),
            None => None,
        }
    } else {
        None
    }
}

/// A whole members document: the object shape of the members response.
pub open spec fn spec_members_doc(s: Seq<u8>) -> Option<Seq<Seq<u8>>> {
    let i = spec_skip_ws(s, 0);
    if i < s.len() && s[i] == LBRACE {
        let q = spec_skip_ws(s, i + 1);
        match spec_members_fields(s, q, None) {
            None => None,
            Some((ms, e)) => if spec_skip_ws(s, e) == s.len() {
                Some(ms)
            } else {
                None
            },
        }
    } else {
        None
    }
}

/// The fields of one record object: the field named `key` must appear
/// exactly once with a string value, other fields are skipped. The result
/// is that value and the position past the closing brace.
pub open spec fn spec_record_fields(s: Seq<u8>, q: int, key: Seq<u8>, found: Option<Seq<u8>>) -> Option<
    (Seq<u8>, int),
>
    decreases s.len() - q, 0int,
{
    match spec_parse_string(s, q) {
        None => None,
        Some((k, j)) => {
            let t = spec_skip_ws(s, j);
            if !(t < s.len() && s[t] == COLON) {
                None
            } else {
                let u = spec_skip_ws(s, t + 1);
                if u <= q || u > s.len() {
                    None
                } else if k == key {
                    if found is Some {
                        None
                    } else {
                        match spec_parse_string(s, u) {
                            None => None,
                            Some((x, v)) => if v <= q || v > s.len() {
                                None
                            } else {
                                spec_record_tail(s, v, key, Some(x))
                            },
                        }
                    }
                } else {
                    match spec_skip_value(s, u) {
                        None => None,
                        Some(v) => if v <= q || v > s.len() {
                            None
                        } else {
                            spec_record_tail(s, v, key, found)
                        },
                    }
                }
            }
        },
    }
}

pub open spec fn spec_record_tail(s: Seq<u8>, v: int, key: Seq<u8>, found: Option<Seq<u8>>) -> Option<
    (Seq<u8>, int),
>
    decreases s.len() - v, 0int,
{
    let w = spec_skip_ws(s, v);
    if w < s.len() && s[w] == COMMA {
        let x = spec_skip_ws(s, w + 1);
        if x <= v || x > s.len() {
            None
        } else {
            spec_record_fields(s, x, key, found)
        }
    } else if w < s.len() && s[w] == RBRACE {
        match found {
            Some(x) => Some((x, w + 1)),
            None => None,
        }
    } else {
        None
    }
}

/// One record object at `i`.
pub open spec fn spec_parse_record(s: Seq<u8>, i: int, key: Seq<u8>) -> Option<(Seq<u8>, int)>
    decreases s.len() - i, 1int,
{
    if 0 <= i < s.len() && s[i] == LBRACE {
        let q = spec_skip_ws(s, i + 1);
        if q <= i || q > s.len() {
            None
        } else {
            spec_record_fields(s, q, key, None)
        }
    } else {
        None
    }
}

/// The elements of an array of records from the first record at `q` up to
/// and past the closing bracket. `acc` holds the identifiers read so far.
pub open spec fn spec_record_elems(s: Seq<u8>, q: int, key: Seq<u8>, acc: Seq<Seq<u8>>) -> Option<
    (Seq<Seq<u8>>, int),
>
    decreases s.len() - q, 2int,
{
    match spec_parse_record(s, q, key) {
        None => None,
        Some((x, j)) => {
            let t = spec_skip_ws(s, j);
            if t < s.len() && s[t] == COMMA {
                let u = spec_skip_ws(s, t + 1);
                if u <= q || u > s.len() {
                    None
                } else {
                    spec_record_elems(s, u, key, acc.push(x))
                }
            } else if t < s.len() && s[t] == RBRACKET {
                Some((acc.push(x), t + 1))
            } else {
                None
            }
        },
    }
}

/// A whole record-array document: the array shape of either response, with
/// nothing but whitespace around it. The result is the identifier of each
/// record, in the array's order.
pub open spec fn spec_record_array_doc(s: Seq<u8>, key: Seq<u8>) -> Option<Seq<Seq<u8>>> {
    let i = spec_skip_ws(s, 0);
    if i < s.len() && s[i] == LBRACKET {
        let q = spec_skip_ws(s, i + 1);
        if q < s.len() && s[q] == RBRACKET {
            if spec_skip_ws(s, q + 1) == s.len() {
                Some(Seq::empty())
            } else {
                None
            }
        } else {
            match spec_record_elems(s, q, key, Seq::empty()) {
                None => None,
                Some((xs, e)) => if spec_skip_ws(s, e) == s.len() {
                    Some(xs)
                } else {
                    None
                },
            }
        }
    } else {
        None
    }
}

/// A rooms response body in either shape: the room identifiers it lists.
pub open spec fn spec_user_rooms_doc(s: Seq<u8>) -> Option<Seq<Seq<u8>>> {
    match spec_membership_doc(s) {
        Some((rooms, _)) => Some(rooms),
        None => spec_record_array_doc(s, key_room_id()),
    }
}

/// A members response body in either shape: the identities it lists.
pub open spec fn spec_room_members_doc(s: Seq<u8>) -> Option<Seq<Seq<u8>>> {
    match spec_members_doc(s) {
        Some(ms) => Some(ms),
        None => spec_record_array_doc(s, key_user_id()),
    }
}

fn make_key_joined_rooms() -> (r: Vec<u8>)
    ensures
        r@ == key_joined_rooms(),
{
    let mut v: Vec<u8> = Vec::new();
    v.push(0x6a);
    v.push(0x6f);
    v.push(0x69);
    v.push(0x6e);
    v.push(0x65);
    v.push(0x64);
    v.push(0x5f);
    v.push(0x72);
    v.push(0x6f);
    v.push(0x6f);
    v.push(0x6d);
    v.push(0x73);
    assert(v@ =~= key_joined_rooms());
    v
}

fn make_key_total() -> (r: Vec<u8>)
    ensures
        r@ == key_total(),
{
    let mut v: Vec<u8> = Vec::new();
    v.push(0x74);
    v.push(0x6f);
    v.push(0x74);
    v.push(0x61);
    v.push(0x6c);
    assert(v@ =~= key_total());
    v
}

fn make_key_members() -> (r: Vec<u8>)
    ensures
        r@ == key_members(),
{
    let mut v: Vec<u8> = Vec::new();
    v.push(0x6d);
    v.push(0x65);
    v.push(0x6d);
    v.push(0x62);
    v.push(0x65);
    v.push(0x72);
    v.push(0x73);
    assert(v@ =~= key_members());
    v
}

fn make_key_room_id() -> (r: Vec<u8>)
    ensures
        r@ == key_room_id(),
{
    let mut v: Vec<u8> = Vec::new();
    v.push(0x72);
    v.push(0x6f);
    v.push(0x6f);
    v.push(0x6d);
    v.push(0x5f);
    v.push(0x69);
    v.push(0x64);
    assert(v@ =~= key_room_id());
    v
}

fn make_key_user_id() -> (r: Vec<u8>)
    ensures
        r@ == key_user_id(),
{
    let mut v: Vec<u8> = Vec::new();
    v.push(0x75);
    v.push(0x73);
    v.push(0x65);
    v.push(0x72);
    v.push(0x5f);
    v.push(0x69);
    v.push(0x64);
    assert(v@ =~= key_user_id());
    v
}

/// Reads the object shape of a rooms response. Succeeds exactly on a
/// well-formed membership document, returning its room identifiers in the
/// document's order and its count field.
pub fn parse_user_membership_response(s: &[u8]) -> (r: Option<UserMembershipResponse>)
    ensures
        (match r {
            Some(resp) => spec_membership_doc(s@) == Some(
                (views_of(resp.joined_rooms@), resp.total as int),
            ),
            None => spec_membership_doc(s@) is None,
        }),
{
    let n = s.len();
    let i = skip_ws(s, 0);
    if !(i < n && s[i] == LBRACE) {
        return None;
    }
    let q0 = skip_ws(s, i + 1);
    let kjr = make_key_joined_rooms();
    let ktot = make_key_total();
    let mut rooms: Option<Vec<Vec<u8>>> = None;
    let mut total_v: Option<usize> = None;
    let mut q = q0;
    loop
        invariant
            i < q <= n,
            n == s@.len(),
            i == spec_skip_ws(s@, 0),
            i < n && s@[i as int] == LBRACE,
            q0 == spec_skip_ws(s@, i as int + 1),
            kjr@ == key_joined_rooms(),
            ktot@ == key_total(),
            spec_membership_fields(s@, q0 as int, None, None) == spec_membership_fields(
                s@,
                q as int,
                opt_views(rooms),
                opt_count(total_v),
            ),
        decreases n - q,
    {
        match parse_string(s, q) {
            None => {
                return None;
            },
            Some((k, j)) => {
                let t = skip_ws(s, j);
                if !(t < n && s[t] == COLON) {
                    return None;
                }
                let u = skip_ws(s, t + 1);
                assert(q < u && u <= n);
                let vend: usize;
                if bytes_eq(k.as_slice(), kjr.as_slice()) {
                    if rooms.is_some() {
                        return None;
                    }
                    match parse_string_array(s, u) {
                        None => {
                            return None;
                        },
                        Some((xs, v2)) => {
                            rooms = Some(xs);
                            vend = v2;
                        },
                    }
                } else if bytes_eq(k.as_slice(), ktot.as_slice()) {
                    if total_v.is_some() {
                        return None;
                    }
                    match parse_uint(s, u) {
                        None => {
                            return None;
                        },
                        Some((tv, v2)) => {
                            total_v = Some(tv);
                            vend = v2;
                        },
                    }
                } else {
                    match skip_value(s, u) {
                        None => {
                            return None;
                        },
                        Some(v2) => {
                            vend = v2;
                        },
                    }
                }
                assert(q < vend && vend <= n);
                let w = skip_ws(s, vend);
                if w < n && s[w] == COMMA {
                    let x2 = skip_ws(s, w + 1);
                    assert(vend < x2 && x2 <= n);
                    q = x2;
                } else if w < n && s[w] == RBRACE {
                    match (rooms, total_v) {
                        (Some(rv), Some(tv)) => {
                            let z = skip_ws(s, w + 1);
                            if z == n {
                                return Some(
                                    UserMembershipResponse { joined_rooms: rv, total: tv },
                                );
                            } else {
                                return None;
                            }
                        },
                        _ => {
                            return None;
                        },
                    }
                } else {
                    return None;
                }
            },
        }
    }
}

/// Reads the object shape of a members response. Succeeds exactly on a
/// well-formed members document, returning its identities in the document's
/// order.
pub fn parse_room_members_response(s: &[u8]) -> (r: Option<RoomMembersResponse>)
    ensures
        (match r {
            Some(resp) => spec_members_doc(s@) == Some(views_of(resp.members@)),
            None => spec_members_doc(s@) is None,
        }),
{
    let n = s.len();
    let i = skip_ws(s, 0);
    if !(i < n && s[i] == LBRACE) {
        return None;
    }
    let q0 = skip_ws(s, i + 1);
    let km = make_key_members();
    let mut members: Option<Vec<Vec<u8>>> = None;
    let mut q = q0;
    loop
        invariant
            i < q <= n,
            n == s@.len(),
            i == spec_skip_ws(s@, 0),
            i < n && s@[i as int] == LBRACE,
            q0 == spec_skip_ws(s@, i as int + 1),
            km@ == key_members(),
            spec_members_fields(s@, q0 as int, None) == spec_members_fields(
                s@,
                q as int,
                opt_views(members),
            ),
        decreases n - q,
    {
        match parse_string(s, q) {
            None => {
                return None;
            },
            Some((k, j)) => {
                let t = skip_ws(s, j);
                if !(t < n && s[t] == COLON) {
                    return None;
                }
                let u = skip_ws(s, t + 1);
                assert(q < u && u <= n);
                let vend: usize;
                if bytes_eq(k.as_slice(), km.as_slice()) {
                    if members.is_some() {
                        return None;
                    }
                    match parse_string_array(s, u) {
                        None => {
                            return None;
                        },
                        Some((xs, v2)) => {
                            members = Some(xs);
                            vend = v2;
                        },
                    }
                } else {
                    match skip_value(s, u) {
                        None => {
                            return None;
                        },
                        Some(v2) => {
                            vend = v2;
                        },
                    }
                }
                assert(q < vend && vend <= n);
                let w = skip_ws(s, vend);
                if w < n && s[w] == COMMA {
                    let x2 = skip_ws(s, w + 1);
                    assert(vend < x2 && x2 <= n);
                    q = x2;
                } else if w < n && s[w] == RBRACE {
                    match members {
                        Some(ms) => {
                            let z = skip_ws(s, w + 1);
                            if z == n {
                                return Some(RoomMembersResponse { members: ms });
                            } else {
                                return None;
                            }
                        },
                        None => {
                            return None;
                        },
                    }
                } else {
                    return None;
                }
            },
        }
    }
}

/// Reads one record object, yielding the string value of the field named
/// `key`.
fn parse_record(s: &[u8], i: usize, key: &[u8]) -> (r: Option<(Vec<u8>, usize)>)
    requires
        i <= s@.len(),
    ensures
        (match r {
            Some((x, j)) => spec_parse_record(s@, i as int, key@) == Some((x@, j as int))
                && i < j <= s@.len(),
            None => spec_parse_record(s@, i as int, key@) is None,
        }),
{
    let n = s.len();
    if i >= n || s[i] != LBRACE {
        return None;
    }
    let q0 = skip_ws(s, i + 1);
    let mut found: Option<Vec<u8>> = None;
    let mut q = q0;
    loop
        invariant
            i < q <= n,
            n == s@.len(),
            i < n && s@[i as int] == LBRACE,
            q0 == spec_skip_ws(s@, i as int + 1),
            i < q0 <= n,
            spec_record_fields(s@, q0 as int, key@, None) == spec_record_fields(
                s@,
                q as int,
                key@,
                (match found {
                    Some(x) => Some(x@),
                    None => None,
                }),
            ),
        decreases n - q,
    {
        match parse_string(s, q) {
            None => {
                return None;
            },
            Some((k, j)) => {
                let t = skip_ws(s, j);
                if !(t < n && s[t] == COLON) {
                    return None;
                }
                let u = skip_ws(s, t + 1);
                assert(q < u && u <= n);
                let vend: usize;
                if bytes_eq(k.as_slice(), key) {
                    if found.is_some() {
                        return None;
                    }
                    match parse_string(s, u) {
                        None => {
                            return None;
                        },
                        Some((x, v2)) => {
                            found = Some(x);
                            vend = v2;
                        },
                    }
                } else {
                    match skip_value(s, u) {
                        None => {
                            return None;
                        },
                        Some(v2) => {
                            vend = v2;
                        },
                    }
                }
                assert(q < vend && vend <= n);
                let w = skip_ws(s, vend);
                if w < n && s[w] == COMMA {
                    let x2 = skip_ws(s, w + 1);
                    assert(vend < x2 && x2 <= n);
                    q = x2;
                } else if w < n && s[w] == RBRACE {
                    match found {
                        Some(x) => {
                            return Some((x, w + 1));
                        },
                        None => {
                            return None;
                        },
                    }
                } else {
                    return None;
                }
            },
        }
    }
}

/// Reads the array-of-records shape, yielding the identifier of each record
/// in the array's order.
fn parse_record_array(s: &[u8], key: &[u8]) -> (r: Option<Vec<Vec<u8>>>)
    ensures
        (match r {
            Some(v) => spec_record_array_doc(s@, key@) == Some(views_of(v@)),
            None => spec_record_array_doc(s@, key@) is None,
        }),
{
    let n = s.len();
    let i = skip_ws(s, 0);
    if !(i < n && s[i] == LBRACKET) {
        return None;
    }
    let q0 = skip_ws(s, i + 1);
    let mut out: Vec<Vec<u8>> = Vec::new();
    assert(views_of(out@) =~= Seq::<Seq<u8>>::empty());
    if q0 < n && s[q0] == RBRACKET {
        let z = skip_ws(s, q0 + 1);
        if z == n {
            return Some(out);
        } else {
            return None;
        }
    }
    let mut q = q0;
    loop
        invariant
            i < q <= n,
            n == s@.len(),
            i == spec_skip_ws(s@, 0),
            i < n && s@[i as int] == LBRACKET,
            q0 == spec_skip_ws(s@, i as int + 1),
            !(q0 < n && s@[q0 as int] == RBRACKET),
            spec_record_elems(s@, q0 as int, key@, Seq::empty()) == spec_record_elems(
                s@,
                q as int,
                key@,
                views_of(out@),
            ),
        decreases n - q,
    {
        match parse_record(s, q, key) {
            None => {
                return None;
            },
            Some((x, j)) => {
                let ghost ov = views_of(out@);
                let ghost xv = x@;
                let t = skip_ws(s, j);
                if t < n && s[t] == COMMA {
                    let u = skip_ws(s, t + 1);
                    assert(q < u && u <= n);
                    out.push(x);
                    assert(views_of(out@) =~= ov.push(xv));
                    q = u;
                } else if t < n && s[t] == RBRACKET {
                    out.push(x);
                    assert(views_of(out@) =~= ov.push(xv));
                    let z = skip_ws(s, t + 1);
                    if z == n {
                        return Some(out);
                    } else {
                        return None;
                    }
                } else {
                    return None;
                }
            },
        }
    }
}

/// Wraps each room identifier of a rooms response in a `Room`, keeping the
/// response's order.
pub fn rooms_from_response(resp: &UserMembershipResponse) -> (r: Vec<Room>)
    ensures
        room_ids(r@) == views_of(resp.joined_rooms@),
{
    let n = resp.joined_rooms.len();
    let mut out: Vec<Room> = Vec::new();
    let mut i: usize = 0;
    while i < n
        invariant
            0 <= i <= n,
            n == resp.joined_rooms@.len(),
            out@.len() == i,
            forall|k: int|
                0 <= k < i ==> #[trigger] out@[k].room_id@ == resp.joined_rooms@[k]@,
        decreases n - i,
    {
        out.push(Room { room_id: clone_bytes(&resp.joined_rooms[i]) });
        i = i + 1;
    }
    assert(room_ids(out@) =~= views_of(resp.joined_rooms@));
    out
}

/// Wraps each identity of a members response in a `Member`, keeping the
/// response's order.
pub fn members_from_response(resp: &RoomMembersResponse) -> (r: Vec<Member>)
    ensures
        member_ids(r@) == views_of(resp.members@),
{
    let n = resp.members.len();
    let mut out: Vec<Member> = Vec::new();
    let mut i: usize = 0;
    while i < n
        invariant
            0 <= i <= n,
            n == resp.members@.len(),
            out@.len() == i,
            forall|k: int| 0 <= k < i ==> #[trigger] out@[k].user_id@ == resp.members@[k]@,
        decreases n - i,
    {
        out.push(Member { user_id: clone_bytes(&resp.members[i]) });
        i = i + 1;
    }
    assert(member_ids(out@) =~= views_of(resp.members@));
    out
}

fn wrap_rooms(ids: Vec<Vec<u8>>) -> (r: Vec<Room>)
    ensures
        room_ids(r@) == views_of(ids@),
{
    let resp = UserMembershipResponse { joined_rooms: ids, total: 0 };
    rooms_from_response(&resp)
}

fn wrap_members(ids: Vec<Vec<u8>>) -> (r: Vec<Member>)
    ensures
        member_ids(r@) == views_of(ids@),
{
    let resp = RoomMembersResponse { members: ids };
    members_from_response(&resp)
}

/// Reads a rooms response in either shape. Succeeds exactly on a well-formed
/// body, returning one `Room` per listed identifier, in the body's order.
pub fn parse_user_rooms(s: &[u8]) -> (r: Option<Vec<Room>>)
    ensures
        (match r {
            Some(v) => spec_user_rooms_doc(s@) == Some(room_ids(v@)),
            None => spec_user_rooms_doc(s@) is None,
        }),
{
    match parse_user_membership_response(s) {
        Some(resp) => Some(rooms_from_response(&resp)),
        None => {
            let key = make_key_room_id();
            match parse_record_array(s, key.as_slice()) {
                Some(ids) => Some(wrap_rooms(ids)),
                None => None,
            }
        },
    }
}

/// Reads a members response in either shape. Succeeds exactly on a
/// well-formed body, returning one `Member` per listed identity, in the
/// body's order.
pub fn parse_room_members(s: &[u8]) -> (r: Option<Vec<Member>>)
    ensures
        (match r {
            Some(v) => spec_room_members_doc(s@) == Some(member_ids(v@)),
            None => spec_room_members_doc(s@) is None,
        }),
{
    match parse_room_members_response(s) {
        Some(resp) => Some(members_from_response(&resp)),
        None => {
            let key = make_key_user_id();
            match parse_record_array(s, key.as_slice()) {
                Some(ids) => Some(wrap_members(ids)),
                None => None,
            }
        },
    }
}

} // verus!
