//! The group registry: each `Group` holds the membership of one named
//! channel, and a `GroupTable` maps group names to groups, creating a
//! group the first time its name is joined and never on a post.
//!
//! Members are plain numeric handles standing for connections' outbound
//! writers; the registry never owns a connection.

use vstd::prelude::*;

use crate::frame::FromServer;
use crate::text::str_eq;

verus! {

/// One named broadcast channel and its membership.
///
/// Duplicate joins by the same handle are kept: membership is a sequence,
/// not a set, and a handle that joined twice is delivered to twice.
pub struct Group {
    name: String,
    members: Vec<u64>,
}

/// Holds when `f` is a delivery of message `m` for group `g`.
pub open spec fn is_delivery(f: FromServer, g: Seq<char>, m: Seq<char>) -> bool {
    f matches FromServer::Message { group_name, message } && group_name@ == g && message@ == m
}

impl Group {
    /// The group's name, which never changes after creation.
    pub closed spec fn spec_name(self) -> Seq<char> {
        self.name@
    }

    /// The handles of the current members, in join order.
    pub closed spec fn spec_members(self) -> Seq<u64> {
        self.members@
    }

    /// Creates an empty group with the given name.
    pub fn new(name: String) -> (g: Group)
        ensures
            g.spec_name() == name@,
            g.spec_members() == Seq::<u64>::empty(),
    {
        Group { name, members: Vec::new() }
    }

    /// The group's name.
    pub fn name(&self) -> (r: &str)
        ensures
            r@ == self.spec_name(),
    {
        self.name.as_str()
    }

    /// The current members, in join order.
    pub fn members(&self) -> (r: &Vec<u64>)
        ensures
            r@ == self.spec_members(),
    {
        &self.members
    }

    /// Adds `handle` to the membership; an already-present handle is
    /// added again, not deduplicated.
    pub fn join(&mut self, handle: u64)
        ensures
            final(self).spec_name() == old(self).spec_name(),
            final(self).spec_members() == old(self).spec_members().push(handle),
    {
        self.members.push(handle);
    }

    /// Produces the broadcast fan-out for posting `message` to this
    /// group: one delivery frame per current member, each carrying the
    /// exact message content, in membership order. The deliveries are
    /// independent of one another; performing them (and dropping any
    /// that fail) is the caller's business.
    pub fn post(&self, message: &str) -> (out: Vec<(u64, FromServer)>)
        ensures
            out@.len() == self.spec_members().len(),
            forall|k: int|
                0 <= k < out@.len() ==> #[trigger] out@[k].0 == self.spec_members()[k]
                    && is_delivery(out@[k].1, self.spec_name(), message@),
    {
        let mut out: Vec<(u64, FromServer)> = Vec::new();
        let n = self.members.len();
        let mut i: usize = 0;
        while i < n
            invariant
                n == self.spec_members().len(),
                0 <= i <= n,
                out@.len() == i,
                forall|k: int|
                    0 <= k < i ==> #[trigger] out@[k].0 == self.spec_members()[k]
                        && is_delivery(out@[k].1, self.spec_name(), message@),
            decreases n - i,
        {
            let frame = FromServer::Message {
                group_name: self.name.clone(),
                message: message.to_owned(),
            };
            out.push((self.members[i], frame));
            i += 1;
        }
        out
    }
}

/// The registry mapping group names to groups, shared (outside this
/// core) by every connection; here it is a plain value and the caller
/// serializes access to it.
pub struct GroupTable {
    groups: Vec<Group>,
}

/// How a table after a Join relates to the table before it: the named
/// group exists, `handle` was appended to its membership (which starts
/// empty if the group was just created), a group was created exactly
/// when the name was unseen, and every other group is untouched.
pub open spec fn join_post(pre: GroupTable, post: GroupTable, name: Seq<char>, handle: u64) -> bool {
    &&& post.wf()
    &&& post.has(name)
    &&& post.members_of(name) == (if pre.has(name) {
        pre.members_of(name)
    } else {
        Seq::<u64>::empty()
    }).push(handle)
    &&& (pre.has(name) ==> post.groups_seq().len() == pre.groups_seq().len())
    &&& (!pre.has(name) ==> post.groups_seq().len() == pre.groups_seq().len() + 1)
    &&& forall|n: Seq<char>|
        n != name ==> (post.has(n) == pre.has(n) && (pre.has(n) ==> post.members_of(n)
            == pre.members_of(n)))
}

/// However many times a previously-unused name is joined, exactly one
/// group is created — the first Join creates it, every later one lands
/// in it — and the members accumulate in join order.
pub proof fn lemma_joins_create_one_group(
    t0: GroupTable,
    t1: GroupTable,
    t2: GroupTable,
    name: Seq<char>,
    c1: u64,
    c2: u64,
)
    requires
        !t0.has(name),
        join_post(t0, t1, name, c1),
        join_post(t1, t2, name, c2),
    ensures
        t2.has(name),
        t2.groups_seq().len() == t0.groups_seq().len() + 1,
        t2.members_of(name) == seq![c1, c2],
{
    assert(t1.members_of(name) =~= seq![c1]);
    assert(t2.members_of(name) =~= seq![c1, c2]);
}

impl GroupTable {
    /// The registered groups, in creation order.
    pub closed spec fn groups_seq(self) -> Seq<Group> {
        self.groups@
    }

    /// At most one group per name ever exists.
    pub open spec fn wf(self) -> bool {
        forall|i: int, j: int|
            0 <= i < j < self.groups_seq().len()
                ==> #[trigger] self.groups_seq()[i].spec_name()
                    != #[trigger] self.groups_seq()[j].spec_name()
    }

    /// Whether a group of the given name has been created.
    pub open spec fn has(self, name: Seq<char>) -> bool {
        exists|i: int|
            0 <= i < self.groups_seq().len() && #[trigger] self.groups_seq()[i].spec_name()
                == name
    }

    /// The index of the group of the given name (meaningful only when
    /// `has(name)` holds).
    pub open spec fn idx_of(self, name: Seq<char>) -> int {
        choose|i: int|
            0 <= i < self.groups_seq().len() && #[trigger] self.groups_seq()[i].spec_name()
                == name
    }

    /// The membership of the group of the given name (meaningful only
    /// when `has(name)` holds).
    pub open spec fn members_of(self, name: Seq<char>) -> Seq<u64> {
        self.groups_seq()[self.idx_of(name)].spec_members()
    }

    /// In a well-formed table, a group found at index `i` is the one
    /// `idx_of` denotes: names pin groups down uniquely.
    pub proof fn lemma_idx_unique(self, name: Seq<char>, i: int)
        requires
            self.wf(),
            0 <= i < self.groups_seq().len(),
            self.groups_seq()[i].spec_name() == name,
        ensures
            self.has(name),
            self.idx_of(name) == i,
    {
        assert(self.has(name));
        let j = self.idx_of(name);
        assert(0 <= j < self.groups_seq().len() && self.groups_seq()[j].spec_name() == name);
        if i < j {
            assert(self.groups_seq()[i].spec_name() != self.groups_seq()[j].spec_name());
        } else if j < i {
            assert(self.groups_seq()[j].spec_name() != self.groups_seq()[i].spec_name());
        }
    }

    /// Creates an empty registry.
    pub fn new() -> (t: GroupTable)
        ensures
            t.wf(),
            t.groups_seq() == Seq::<Group>::empty(),
            forall|n: Seq<char>| !t.has(n),
    {
        GroupTable { groups: Vec::new() }
    }

    /// Read-only lookup: returns the group of the given name if one has
    /// been created, and never creates one.
    pub fn get(&self, name: &str) -> (r: Option<&Group>)
        requires
            self.wf(),
        ensures
            match r {
                Some(g) => self.has(name@) && g.spec_name() == name@ && g.spec_members()
                    == self.members_of(name@),
                None => !self.has(name@),
            },
    {
        let n = self.groups.len();
        let mut i: usize = 0;
        while i < n
            invariant
                self.wf(),
                n == self.groups_seq().len(),
                0 <= i <= n,
                forall|j: int| 0 <= j < i ==> #[trigger] self.groups_seq()[j].spec_name() != name@,
            decreases n - i,
        {
            if str_eq(self.groups[i].name.as_str(), name) {
                proof {
                    self.lemma_idx_unique(name@, i as int);
                }
                return Some(&self.groups[i]);
            }
            i += 1;
        }
        None
    }

    /// Returns the index of the group of the given name, creating and
    /// registering an empty one first if none exists.
    fn slot_for(&mut self, name: &str) -> (i: usize)
        requires
            old(self).wf(),
        ensures
            final(self).wf(),
            i < final(self).groups_seq().len(),
            final(self).groups_seq()[i as int].spec_name() == name@,
            final(self).has(name@),
            final(self).idx_of(name@) == i,
            old(self).has(name@) ==> *final(self) == *old(self),
            !old(self).has(name@) ==> {
                &&& i == old(self).groups_seq().len()
                &&& final(self).groups_seq() == old(self).groups_seq().push(
                    final(self).groups_seq()[i as int],
                )
                &&& final(self).groups_seq()[i as int].spec_members() == Seq::<u64>::empty()
            },
            forall|n: Seq<char>|
                n != name@ ==> (final(self).has(n) == old(self).has(n) && (old(self).has(n)
                    ==> final(self).idx_of(n) == old(self).idx_of(n) && final(self).members_of(n)
                    == old(self).members_of(n))),
    {
        let n = self.groups.len();
        let mut i: usize = 0;
        while i < n
            invariant
                self.wf(),
                n == self.groups_seq().len(),
                0 <= i <= n,
                forall|j: int| 0 <= j < i ==> #[trigger] self.groups_seq()[j].spec_name() != name@,
            decreases n - i,
        {
            if str_eq(self.groups[i].name.as_str(), name) {
                proof {
                    self.lemma_idx_unique(name@, i as int);
                }
                return i;
            }
            i += 1;
        }
        let ghost pre = *self;
        assert(!pre.has(name@));
        let g = Group::new(name.to_owned());
        self.groups.push(g);
        proof {
            assert(self.groups_seq() =~= pre.groups_seq().push(
                self.groups_seq()[n as int],
            ));
            assert forall|a: int, b: int|
                0 <= a < b < self.groups_seq().len() implies #[trigger] self.groups_seq()[
                a].spec_name() != #[trigger] self.groups_seq()[b].spec_name() by {
                if b < n {
                    assert(pre.groups_seq()[a].spec_name() != pre.groups_seq()[b].spec_name());
                } else {
                    assert(b == n);
                    assert(pre.groups_seq()[a].spec_name() != name@);
                }
            }
            self.lemma_idx_unique(name@, n as int);
            assert forall|nm: Seq<char>| nm != name@ implies (self.has(nm) == pre.has(nm) && (
            pre.has(nm) ==> self.idx_of(nm) == pre.idx_of(nm) && self.members_of(nm)
                == pre.members_of(nm))) by {
                if pre.has(nm) {
                    let j = pre.idx_of(nm);
                    assert(0 <= j < pre.groups_seq().len() && pre.groups_seq()[j].spec_name()
                        == nm);
                    assert(self.groups_seq()[j].spec_name() == nm);
                    self.lemma_idx_unique(nm, j);
                } else {
                    if self.has(nm) {
                        let j = choose|j: int|
                            0 <= j < self.groups_seq().len()
                                && #[trigger] self.groups_seq()[j].spec_name() == nm;
                        assert(j == n);
                        assert(false);
                    }
                }
            }
        }
        n
    }

    /// Returns the group of the given name, creating and registering an
    /// empty one first if none exists. Never fails, and no two callers
    /// can ever see two distinct groups for one name: the table keeps at
    /// most one.
    pub fn get_or_create(&mut self, name: &str) -> (g: &Group)
        requires
            old(self).wf(),
        ensures
            final(self).wf(),
            final(self).has(name@),
            g.spec_name() == name@,
            g.spec_members() == final(self).members_of(name@),
            final(self).members_of(name@) == (if old(self).has(name@) {
                old(self).members_of(name@)
            } else {
                Seq::<u64>::empty()
            }),
            old(self).has(name@) ==> *final(self) == *old(self),
            !old(self).has(name@) ==> final(self).groups_seq().len() == old(
                self,
            ).groups_seq().len() + 1,
            forall|n: Seq<char>|
                n != name@ ==> (final(self).has(n) == old(self).has(n) && (old(self).has(n)
                    ==> final(self).members_of(n) == old(self).members_of(n))),
    {
        let i = self.slot_for(name);
        &self.groups[i]
    }

    /// The Join operation: resolve or create the group of the given
    /// name, then add `handle` to its membership. Every other group is
    /// left untouched.
    pub fn join(&mut self, name: &str, handle: u64)
        requires
            old(self).wf(),
        ensures
            join_post(*old(self), *final(self), name@, handle),
    {
        let i = self.slot_for(name);
        let ghost mid = *self;
        let g = &mut self.groups[i];
        g.join(handle);
        proof {
            assert(self.groups_seq() =~= mid.groups_seq().update(
                i as int,
                self.groups_seq()[i as int],
            ));
            assert forall|a: int, b: int|
                0 <= a < b < self.groups_seq().len() implies #[trigger] self.groups_seq()[
                a].spec_name() != #[trigger] self.groups_seq()[b].spec_name() by {
                assert(mid.groups_seq()[a].spec_name() != mid.groups_seq()[b].spec_name());
                assert(self.groups_seq()[a].spec_name() == mid.groups_seq()[a].spec_name());
                assert(self.groups_seq()[b].spec_name() == mid.groups_seq()[b].spec_name());
            }
            self.lemma_idx_unique(name@, i as int);
            assert forall|n: Seq<char>| n != name@ implies (self.has(n) == mid.has(n) && (mid.has(
                n,
            ) ==> self.members_of(n) == mid.members_of(n))) by {
                assert forall|j: int| 0 <= j < self.groups_seq().len() implies #[trigger] self
                    .groups_seq()[j].spec_name() == mid.groups_seq()[j].spec_name() by {}
                if mid.has(n) {
                    let j = mid.idx_of(n);
                    assert(self.groups_seq()[j].spec_name() == n);
                    self.lemma_idx_unique(n, j);
                    assert(j != i);
                } else {
                    if self.has(n) {
                        let j = choose|j: int|
                            0 <= j < self.groups_seq().len()
                                && #[trigger] self.groups_seq()[j].spec_name() == n;
                        assert(mid.groups_seq()[j].spec_name() == n);
                        assert(false);
                    }
                }
            }
        }
    }
}

} // verus!
