//! What the tool reports once every room has been visited.

use vstd::prelude::*;

use crate::contacts::{ContactSet, sorted_strict};
use crate::json::views_of;
use crate::response::Room;

verus! {

/// The outcome of a run: either the target belongs to no room, or the
/// ascending list of its contacts.
pub enum Report {
    NoRooms,
    Contacts(Vec<Vec<u8>>),
}

/// Decides the report: with no rooms at all the run reports that and
/// nothing else; otherwise it reports the aggregated contacts, in ascending
/// lexicographic order, each exactly once, never the target.
pub fn build_report(rooms: &Vec<Room>, contacts: ContactSet) -> (r: Report)
    requires
        contacts.wf(),
    ensures
        rooms@.len() == 0 <==> r is NoRooms,
        (match r {
            Report::NoRooms => true,
            Report::Contacts(list) => {
                &&& sorted_strict(views_of(list@))
                &&& views_of(list@).to_set() == contacts.contact_set()
                &&& !views_of(list@).to_set().contains(contacts.spec_target())
            },
        }),
{
    if rooms.len() == 0 {
        Report::NoRooms
    } else {
        Report::Contacts(contacts.into_sorted())
    }
}

} // verus!
