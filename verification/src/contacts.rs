//! The aggregate of contacts: every member identity seen across the target
//! user's rooms, the target excluded, each identity counted once, kept in
//! ascending lexicographic byte order.

use vstd::prelude::*;

use crate::json::views_of;
use crate::order::{bytes_eq, bytes_lt, clone_bytes, lemma_lex_connected, lemma_lex_transitive,
    lex_lt};
use crate::response::{Member, member_ids};

verus! {

/// Ascending lexicographic order without repetition.
pub open spec fn sorted_strict(s: Seq<Seq<u8>>) -> bool {
    forall|i: int, j: int| 0 <= i < j < s.len() ==> lex_lt(s[i], s[j])
}

/// The deduplicated set of contacts of one target identity.
pub struct ContactSet {
    target: Vec<u8>,
    contacts: Vec<Vec<u8>>,
}

impl ContactSet {
    /// The identity whose contacts are collected; never a contact itself.
    pub closed spec fn spec_target(self) -> Seq<u8> {
        self.target@
    }

    /// The collected contacts, in ascending order.
    pub closed spec fn contact_seq(self) -> Seq<Seq<u8>> {
        views_of(self.contacts@)
    }

    /// The collected contacts as a set.
    pub open spec fn contact_set(self) -> Set<Seq<u8>> {
        self.contact_seq().to_set()
    }

    pub open spec fn wf(self) -> bool {
        &&& sorted_strict(self.contact_seq())
        &&& !self.contact_set().contains(self.spec_target())
    }

    /// An empty aggregate for the given target identity.
    pub fn new(target: Vec<u8>) -> (r: ContactSet)
        ensures
            r.wf(),
            r.spec_target() == target@,
            r.contact_set() == Set::<Seq<u8>>::empty(),
    {
        let contacts: Vec<Vec<u8>> = Vec::new();
        let r = ContactSet { target, contacts };
        proof {
            assert(r.contact_seq() =~= Seq::<Seq<u8>>::empty());
            assert(r.contact_set() =~= Set::<Seq<u8>>::empty());
        }
        r
    }

    /// Records one member identity: a new contact is added, the target and
    /// identities already present change nothing.
    pub fn add_member(&mut self, user_id: Vec<u8>)
        requires
            old(self).wf(),
        ensures
            final(self).wf(),
            final(self).spec_target() == old(self).spec_target(),
            final(self).contact_set() == (if user_id@ == old(self).spec_target() {
                old(self).contact_set()
            } else {
                old(self).contact_set().insert(user_id@)
            }),
    {
        let ghost idv = user_id@;
        if bytes_eq(user_id.as_slice(), self.target.as_slice()) {
            return;
        }
        let k = find_pos(&self.contacts, user_id.as_slice());
        let n = self.contacts.len();
        if k < n && bytes_eq(self.contacts[k].as_slice(), user_id.as_slice()) {
            proof {
                assert(self.contact_seq()[k as int] == idv);
                assert(self.contact_seq().contains(idv));
                assert(self.contact_set().insert(idv) =~= self.contact_set());
            }
            return;
        }
        let ghost o = self.contacts@;
        let ghost ov = views_of(o);
        proof {
            if k < n {
                lemma_lex_connected(ov[k as int], idv);
            }
        }
        self.contacts.insert(k, user_id);
        proof {
            o.insert_ensures(k as int, user_id);
            let nv = self.contact_seq();
            assert(nv.len() == ov.len() + 1);
            assert(forall|m: int| 0 <= m < k ==> nv[m] == ov[m]);
            assert(forall|m: int| k < m < nv.len() ==> nv[m] == ov[m - 1]);
            assert(nv[k as int] == idv);
            // the new sequence is still strictly sorted
            assert forall|m1: int, m2: int|
                0 <= m1 < m2 < nv.len() implies lex_lt(nv[m1], nv[m2]) by {
                if m1 == k && m2 > k {
                    assert(lex_lt(idv, ov[k as int]));
                    if m2 - 1 > k {
                        lemma_lex_transitive(idv, ov[k as int], ov[m2 - 1]);
                    }
                } else if m1 < k && m2 == k {
                    assert(lex_lt(ov[m1], idv));
                } else if m1 < k && m2 > k {
                    if m2 - 1 == m1 {
                        assert(lex_lt(ov[m1], idv));
                        assert(m2 == k + 1 && m1 == k - 1);
                    } else {
                        assert(lex_lt(ov[m1], ov[m2 - 1]));
                    }
                }
            }
            // the new set is the old set plus the identity
            assert forall|x: Seq<u8>| nv.contains(x) implies (ov.contains(x) || x == idv) by {
                let m = choose|m: int| 0 <= m < nv.len() && nv[m] == x;
                if m < k {
                    assert(ov[m] == x);
                } else if m > k {
                    assert(ov[m - 1] == x);
                }
            }
            assert forall|x: Seq<u8>| ov.contains(x) implies nv.contains(x) by {
                let m = choose|m: int| 0 <= m < ov.len() && ov[m] == x;
                if m < k {
                    assert(nv[m] == x);
                } else {
                    assert(nv[m + 1] == x);
                }
            }
            assert(nv.contains(idv));
            assert(nv.to_set() =~= ov.to_set().insert(idv));
            // the target was not present and was not added
            assert(!nv.to_set().contains(old(self).spec_target()));
        }
    }

    /// Records every member of one room's member list.
    pub fn add_members(&mut self, members: &Vec<Member>)
        requires
            old(self).wf(),
        ensures
            final(self).wf(),
            final(self).spec_target() == old(self).spec_target(),
            final(self).contact_set() == old(self).contact_set().union(
                member_ids(members@).to_set().remove(old(self).spec_target()),
            ),
    {
        let n = members.len();
        let mut i: usize = 0;
        proof {
            assert(member_ids(members@).subrange(0, 0).to_set()
                =~= Set::<Seq<u8>>::empty());
            assert(old(self).contact_set().union(
                member_ids(members@).subrange(0, 0).to_set().remove(old(self).spec_target()),
            ) =~= old(self).contact_set());
        }
        while i < n
            invariant
                0 <= i <= n,
                n == members@.len(),
                self.wf(),
                self.spec_target() == old(self).spec_target(),
                self.contact_set() == old(self).contact_set().union(
                    member_ids(members@).subrange(0, i as int).to_set().remove(
                        old(self).spec_target(),
                    ),
                ),
            decreases n - i,
        {
            let ghost pre = member_ids(members@).subrange(0, i as int);
            let ghost xv = members@[i as int].user_id@;
            let id = clone_bytes(&members[i].user_id);
            self.add_member(id);
            proof {
                assert(member_ids(members@).subrange(0, i + 1) =~= pre.push(xv));
                assert(pre.push(xv).to_set() =~= pre.to_set().insert(xv)) by {
                    assert forall|x: Seq<u8>| pre.push(xv).contains(x)
                        implies (pre.contains(x) || x == xv) by {
                        let m = choose|m: int| 0 <= m < pre.push(xv).len()
                            && pre.push(xv)[m] == x;
                        if m < pre.len() {
                            assert(pre[m] == x);
                        }
                    }
                    assert(forall|x: Seq<u8>|
                        pre.contains(x) ==> #[trigger] pre.push(xv).contains(x));
                    assert(pre.push(xv)[pre.len() as int] == xv);
                    assert(pre.push(xv).contains(xv));
                }
                let t = old(self).spec_target();
                let base = old(self).contact_set();
                if xv == t {
                    assert(base.union(pre.to_set().insert(xv).remove(t))
                        =~= base.union(pre.to_set().remove(t)));
                } else {
                    assert(base.union(pre.to_set().insert(xv).remove(t))
                        =~= base.union(pre.to_set().remove(t)).insert(xv));
                }
            }
            i = i + 1;
        }
        proof {
            assert(member_ids(members@).subrange(0, n as int) =~= member_ids(members@));
        }
    }

    /// The aggregate, as the ascending list of its identities.
    pub fn into_sorted(self) -> (r: Vec<Vec<u8>>)
        requires
            self.wf(),
        ensures
            sorted_strict(views_of(r@)),
            views_of(r@).to_set() == self.contact_set(),
            !views_of(r@).to_set().contains(self.spec_target()),
    {
        self.contacts
    }
}

/// The position of the first collected contact not below `id`: where `id`
/// belongs in the ascending list.
fn find_pos(contacts: &Vec<Vec<u8>>, id: &[u8]) -> (r: usize)
    ensures
        r <= contacts@.len(),
        forall|m: int| 0 <= m < r ==> lex_lt(#[trigger] contacts@[m]@, id@),
        r < contacts@.len() ==> !lex_lt(contacts@[r as int]@, id@),
{
    let n = contacts.len();
    let mut k: usize = 0;
    while k < n
        invariant
            0 <= k <= n,
            n == contacts@.len(),
            forall|m: int| 0 <= m < k ==> lex_lt(#[trigger] contacts@[m]@, id@),
        decreases n - k,
    {
        if !bytes_lt(contacts[k].as_slice(), id) {
            return k;
        }
        k = k + 1;
    }
    k
}

/// Collecting the members of two rooms in turn aggregates the union of
/// their identity sets minus the target: a member of both rooms counts
/// once, and the target never appears, wherever it occurs.
pub proof fn lemma_two_rooms_union(
    base: Set<Seq<u8>>,
    first: Seq<Member>,
    second: Seq<Member>,
    target: Seq<u8>,
)
    ensures
        base.union(member_ids(first).to_set().remove(target)).union(
            member_ids(second).to_set().remove(target),
        ) == base.union(
            member_ids(first).to_set().union(member_ids(second).to_set()).remove(target),
        ),
{
    assert(base.union(member_ids(first).to_set().remove(target)).union(
        member_ids(second).to_set().remove(target),
    ) =~= base.union(
        member_ids(first).to_set().union(member_ids(second).to_set()).remove(target),
    ));
}

/// An empty member list contributes nothing to the aggregate.
pub proof fn lemma_empty_contribution(base: Set<Seq<u8>>, target: Seq<u8>)
    ensures
        base.union(member_ids(Seq::<Member>::empty()).to_set().remove(target)) == base,
{
    assert(member_ids(Seq::<Member>::empty()).to_set().remove(target)
        =~= Set::<Seq<u8>>::empty());
    assert(base.union(Set::<Seq<u8>>::empty()) =~= base);
}

} // verus!

