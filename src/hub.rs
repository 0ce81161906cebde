//! The hub's state and its five operations.
use std::collections::HashMap;
use vstd::prelude::*;

use crate::messages::{ClientMessage, Connect, Disconnect, Join};

verus! {

broadcast use vstd::std_specs::hash::group_hash_axioms;

/// One text owed to one session.
pub struct Delivery {
    pub to: usize,
    pub text: String,
}

/// The ids of `s` other than `id`, in order.
pub open spec fn without(s: Seq<usize>, id: usize) -> Seq<usize> {
    s.filter(other_than(id))
}

/// Holds of every id but `id`.
pub open spec fn other_than(id: usize) -> spec_fn(usize) -> bool {
    |m: usize| m != id
}

/// The members of a room that a broadcast from `skip` reaches: those that are
/// not `skip` and have a live session in `live`, in order.
pub open spec fn recipients(members: Seq<usize>, live: Set<usize>, skip: usize) -> Seq<usize> {
    members.filter(reached(live, skip))
}

/// Holds of the ids other than `skip` that are in `live`.
pub open spec fn reached(live: Set<usize>, skip: usize) -> spec_fn(usize) -> bool {
    |m: usize| m != skip && live.contains(m)
}

/// `s` with `id` added at its end, unless `id` is already in it.
pub open spec fn with_member(s: Seq<usize>, id: usize) -> Seq<usize> {
    if s.contains(id) {
        s
    } else {
        s.push(id)
    }
}

/// `text` addressed to each of `ids`, in order.
pub open spec fn notices(ids: Seq<usize>, text: Seq<char>) -> Seq<(usize, Seq<char>)> {
    ids.map_values(|i: usize| (i, text))
}

/// The text of each string, in order.
pub open spec fn texts(v: Seq<String>) -> Seq<Seq<char>> {
    v.map_values(|s: String| s@)
}

/// What a list of deliveries says: to whom, and which text.
pub open spec fn delivered(out: Seq<Delivery>) -> Seq<(usize, Seq<char>)> {
    out.map_values(|d: Delivery| (d.to, d.text@))
}

proof fn lemma_filter_extend(s: Seq<usize>, k: int, p: spec_fn(usize) -> bool)
    requires
        0 <= k < s.len(),
    ensures
        s.subrange(0, k + 1).filter(p) == (if p(s[k]) {
            s.subrange(0, k).filter(p).push(s[k])
        } else {
            s.subrange(0, k).filter(p)
        }),
{
    reveal(Seq::filter);
    assert(s.subrange(0, k + 1).drop_last() =~= s.subrange(0, k));
}

proof fn lemma_filter_no_duplicates(s: Seq<usize>, p: spec_fn(usize) -> bool)
    requires
        s.no_duplicates(),
    ensures
        s.filter(p).no_duplicates(),
    decreases s.len(),
{
    broadcast use vstd::seq_lib::group_filter_ensures;
    reveal(Seq::filter);
    if s.len() > 0 {
        let rest = s.drop_last();
        lemma_filter_no_duplicates(rest, p);
        if rest.filter(p).contains(s.last()) {
            rest.lemma_filter_contains_rev(p, s.last());
            let i = choose|i: int| 0 <= i < rest.len() && rest[i] == s.last();
            assert(s[i] == s[s.len() - 1]);
        }
    }
}

/// The members of `members` other than `id`.
fn strip(members: &Vec<usize>, id: usize) -> (r: Vec<usize>)
    ensures
        r@ == without(members@, id),
        members@.no_duplicates() ==> r@.no_duplicates(),
        !r@.contains(id),
{
    proof {
        broadcast use vstd::seq_lib::group_filter_ensures;
        if members@.no_duplicates() {
            lemma_filter_no_duplicates(members@, other_than(id));
        }
        if without(members@, id).contains(id) {
            members@.lemma_filter_contains_rev(other_than(id), id);
        }
    }
    let mut r: Vec<usize> = Vec::new();
    let mut k: usize = 0;
    while k < members.len()
        invariant
            k <= members@.len(),
            r@ == without(members@.subrange(0, k as int), id),
        decreases members@.len() - k,
    {
        proof {
            lemma_filter_extend(members@, k as int, other_than(id));
        }
        if members[k] != id {
            r.push(members[k]);
        }
        k += 1;
    }
    assert(members@.subrange(0, members@.len() as int) =~= members@);
    r
}

/// Whether `id` is among `members`.
fn holds(members: &Vec<usize>, id: usize) -> (r: bool)
    ensures
        r == members@.contains(id),
{
    let mut k: usize = 0;
    while k < members.len()
        invariant
            k <= members@.len(),
            forall|j: int| 0 <= j < k ==> members@[j] != id,
        decreases members@.len() - k,
    {
        if members[k] == id {
            return true;
        }
        k += 1;
    }
    false
}

/// Appends to `out` the text `text` for each member that a broadcast from
/// `skip` reaches.
fn notify<C>(
    members: &Vec<usize>,
    live: &HashMap<usize, C>,
    skip: usize,
    text: &String,
    out: &mut Vec<Delivery>,
)
    ensures
        delivered(final(out)@) == delivered(old(out)@) + notices(
            recipients(members@, live@.dom(), skip),
            text@,
        ),
{
    let mut k: usize = 0;
    while k < members.len()
        invariant
            k <= members@.len(),
            delivered(out@) == delivered(old(out)@) + notices(
                recipients(members@.subrange(0, k as int), live@.dom(), skip),
                text@,
            ),
        decreases members@.len() - k,
    {
        proof {
            lemma_filter_extend(members@, k as int, reached(live@.dom(), skip));
        }
        let m = members[k];
        if m != skip && live.contains_key(&m) {
            let ghost before = out@;
            out.push(Delivery { to: m, text: text.clone() });
            assert(delivered(out@) =~= delivered(before).push((m, text@)));
            assert(notices(recipients(members@.subrange(0, k + 1), live@.dom(), skip), text@)
                =~= notices(recipients(members@.subrange(0, k as int), live@.dom(), skip), text@).push((m, text@)));
        }
        k += 1;
    }
    assert(members@.subrange(0, members@.len() as int) =~= members@);
}


/// Relies on rand::random, which draws from the thread-local generator: an
/// id uniform over all of `usize`, of which nothing is promised.
#[verifier::external_body]
fn random_id() -> (r: usize) {
    rand::random::<usize>()
}

/// A room: a name and the ids of its members. The members are a set, held
/// as a `Vec` that lists each id once (see `wf`), in the order in which they
/// entered: a broadcast then goes out in an order that the contracts name,
/// where a hash set would hand its members out in an order of its own.
struct Room {
    name: String,
    members: Vec<usize>,
}

/// The hub: live sessions by id, each with the capability `C` through which
/// it is reached, and the rooms, in the order in which they came to be.
pub struct ChatServer<C> {
    sessions: HashMap<usize, C>,
    rooms: Vec<Room>,
}

impl<C> ChatServer<C> {
    /// The live sessions, by id.
    pub closed spec fn registry(&self) -> Map<usize, C> {
        self.sessions@
    }

    /// The names of all known rooms, oldest first.
    pub closed spec fn room_names(&self) -> Seq<Seq<char>> {
        self.rooms@.map_values(|r: Room| r.name@)
    }

    /// The members of the room called `name`, in the order in which they
    /// entered it; empty where no such room exists.
    pub closed spec fn members_of(&self, name: Seq<char>) -> Seq<usize> {
        if exists|i: int| 0 <= i < self.rooms@.len() && #[trigger] self.rooms@[i].name@ == name {
            self.rooms@[choose|i: int|
                0 <= i < self.rooms@.len() && #[trigger] self.rooms@[i].name@ == name].members@
        } else {
            Seq::empty()
        }
    }

    /// Whether session `id` is a member of the room called `name`.
    pub open spec fn in_room(&self, id: usize, name: Seq<char>) -> bool {
        self.members_of(name).contains(id)
    }

    /// Every member of every room has a live session.
    pub open spec fn members_live(&self) -> bool {
        forall|id: usize, n: Seq<char>| #[trigger] self.in_room(id, n) ==> self.registry().contains_key(id)
    }

    /// Room names are unique, no room holds an id twice, and the first room
    /// is the default room.
    pub closed spec fn wf(&self) -> bool {
        &&& self.rooms@.len() > 0
        &&& forall|i: int| 0 <= i < self.rooms@.len() ==> (#[trigger] self.rooms@[i]).members@.no_duplicates()
        &&& self.rooms@[0].name@ == "Main"@
        &&& forall|i: int, j: int|
            0 <= i < j < self.rooms@.len() ==> #[trigger] self.rooms@[i].name@
                != #[trigger] self.rooms@[j].name@
    }

    proof fn lemma_members_at(&self, i: int)
        requires
            self.wf(),
            0 <= i < self.rooms@.len(),
        ensures
            self.members_of(self.rooms@[i].name@) == self.rooms@[i].members@,
    {
        let name = self.rooms@[i].name@;
        assert(self.rooms@[i].name@ == name);
        let j = choose|j: int| 0 <= j < self.rooms@.len() && #[trigger] self.rooms@[j].name@ == name;
        if j < i {
            assert(self.rooms@[j].name@ != self.rooms@[i].name@);
        } else if i < j {
            assert(self.rooms@[i].name@ != self.rooms@[j].name@);
        }
    }

    proof fn lemma_room_names(&self)
        ensures
            self.room_names().len() == self.rooms@.len(),
            forall|i: int| 0 <= i < self.rooms@.len() ==> #[trigger] self.room_names()[i] == self.rooms@[i].name@,
    {
    }

    /// A state whose rooms carry the names of the rooms of a well-formed
    /// `pre`, index by index, and list no id twice, is well formed and knows
    /// the same rooms. The members of each room are those at its index; a
    /// name that `pre` does not know has no members in either state.
    proof fn lemma_same_rooms(pre: Self, post: Self)
        requires
            pre.wf(),
            post.rooms@.len() == pre.rooms@.len(),
            forall|i: int| 0 <= i < pre.rooms@.len() ==> #[trigger] post.rooms@[i].name == pre.rooms@[i].name,
            forall|i: int| 0 <= i < post.rooms@.len() ==> (#[trigger] post.rooms@[i]).members@.no_duplicates(),
        ensures
            post.wf(),
            post.room_names() == pre.room_names(),
            forall|i: int| 0 <= i < pre.rooms@.len() ==> {
                &&& #[trigger] post.members_of(pre.rooms@[i].name@) == post.rooms@[i].members@
                &&& pre.members_of(pre.rooms@[i].name@) == pre.rooms@[i].members@
            },
            forall|n: Seq<char>| !pre.room_names().contains(n) ==> {
                &&& #[trigger] post.members_of(n) == Seq::<usize>::empty()
                &&& pre.members_of(n) == Seq::<usize>::empty()
            },
    {
        assert forall|i: int, j: int|
            0 <= i < j < post.rooms@.len() implies #[trigger] post.rooms@[i].name@
                != #[trigger] post.rooms@[j].name@ by {
            assert(pre.rooms@[i].name == post.rooms@[i].name);
            assert(pre.rooms@[j].name == post.rooms@[j].name);
        }
        assert(post.rooms@[0].name == pre.rooms@[0].name);
        pre.lemma_room_names();
        post.lemma_room_names();
        assert(post.room_names() =~= pre.room_names());
        assert forall|i: int| 0 <= i < pre.rooms@.len() implies {
            &&& #[trigger] post.members_of(pre.rooms@[i].name@) == post.rooms@[i].members@
            &&& pre.members_of(pre.rooms@[i].name@) == pre.rooms@[i].members@
        } by {
            pre.lemma_members_at(i);
            post.lemma_members_at(i);
        }
        assert forall|n: Seq<char>| !pre.room_names().contains(n) implies {
            &&& #[trigger] post.members_of(n) == Seq::<usize>::empty()
            &&& pre.members_of(n) == Seq::<usize>::empty()
        } by {
            assert forall|j: int| 0 <= j < post.rooms@.len() implies #[trigger] post.rooms@[j].name@ != n by {
                assert(pre.room_names()[j] == pre.rooms@[j].name@);
            }
            assert forall|j: int| 0 <= j < pre.rooms@.len() implies #[trigger] pre.rooms@[j].name@ != n by {
                assert(pre.room_names()[j] == pre.rooms@[j].name@);
            }
        }
    }

    /// Where `name` is known, `i` names a room whose name it is.
    proof fn lemma_known_name(&self, name: Seq<char>) -> (i: int)
        requires
            self.room_names().contains(name),
        ensures
            0 <= i < self.rooms@.len(),
            self.rooms@[i].name@ == name,
    {
        self.lemma_room_names();
        choose|i: int| 0 <= i < self.room_names().len() && self.room_names()[i] == name
    }

    /// In a well-formed hub a room lists each member once and no two rooms
    /// share a name, so a broadcast reaches each of its recipients once.
    pub proof fn lemma_unique(&self, name: Seq<char>)
        requires
            self.wf(),
        ensures
            self.members_of(name).no_duplicates(),
            self.room_names().no_duplicates(),
            forall|live: Set<usize>, skip: usize| #[trigger] recipients(self.members_of(name), live, skip).no_duplicates(),
    {
        self.lemma_room_names();
        if self.room_names().contains(name) {
            let i = self.lemma_known_name(name);
            self.lemma_members_at(i);
        }
        assert forall|live: Set<usize>, skip: usize| #[trigger] recipients(self.members_of(name), live, skip).no_duplicates() by {
            lemma_filter_no_duplicates(self.members_of(name), reached(live, skip));
        }
        assert forall|i: int, j: int| 0 <= i < self.room_names().len() && 0 <= j < self.room_names().len() && i != j
            implies self.room_names()[i] != self.room_names()[j] by {
            if i < j {
                assert(self.rooms@[i].name@ != self.rooms@[j].name@);
            } else {
                assert(self.rooms@[j].name@ != self.rooms@[i].name@);
            }
        }
    }

    /// The index of the room called `name`, if there is one.
    fn find_room(&self, name: &String) -> (r: Option<usize>)
        ensures
            match r {
                Some(i) => i < self.rooms@.len() && self.rooms@[i as int].name@ == name@,
                None => forall|i: int| 0 <= i < self.rooms@.len() ==> #[trigger] self.rooms@[i].name@ != name@,
            },
    {
        let mut k: usize = 0;
        while k < self.rooms.len()
            invariant
                k <= self.rooms@.len(),
                forall|i: int| 0 <= i < k ==> #[trigger] self.rooms@[i].name@ != name@,
            decreases self.rooms@.len() - k,
        {
            if self.rooms[k].name.eq(name) {
                return Some(k);
            }
            k += 1;
        }
        None
    }

    /// A hub with no sessions and one empty room, `"Main"`.
    pub fn new() -> (r: Self)
        ensures
            r.wf(),
            r.registry() == Map::<usize, C>::empty(),
            r.room_names() == seq!["Main"@],
            forall|name: Seq<char>| #[trigger] r.members_of(name) == Seq::<usize>::empty(),
    {
        let mut rooms: Vec<Room> = Vec::new();
        rooms.push(Room { name: "Main".to_owned(), members: Vec::new() });
        let r = ChatServer { sessions: HashMap::new(), rooms };
        assert(r.room_names() =~= seq!["Main"@]);
        r
    }

    /// `post` is `pre` after session `id` joined the room called `name`: the
    /// session left every room and is the last member of `name`, which exists
    /// afterwards; nothing else changed.
    pub open spec fn joined(pre: Self, post: Self, id: usize, name: Seq<char>) -> bool {
        &&& post.registry() == pre.registry()
        &&& post.room_names() == (if pre.room_names().contains(name) {
            pre.room_names()
        } else {
            pre.room_names().push(name)
        })
        &&& forall|n: Seq<char>| #[trigger]
            post.members_of(n) == (if n == name {
                without(pre.members_of(n), id).push(id)
            } else {
                without(pre.members_of(n), id)
            })
    }

    /// Removes `id` from every room.
    fn leave_all(&mut self, id: usize)
        requires
            old(self).wf(),
        ensures
            final(self).wf(),
            final(self).sessions == old(self).sessions,
            final(self).rooms@.len() == old(self).rooms@.len(),
            forall|i: int| 0 <= i < old(self).rooms@.len() ==> {
                &&& #[trigger] final(self).rooms@[i].name == old(self).rooms@[i].name
                &&& !final(self).rooms@[i].members@.contains(id)
            },
            final(self).room_names() == old(self).room_names(),
            forall|n: Seq<char>| #[trigger] final(self).members_of(n) == without(old(self).members_of(n), id),
    {
        let mut k: usize = 0;
        while k < self.rooms.len()
            invariant
                k <= self.rooms@.len(),
                old(self).wf(),
                self.rooms@.len() == old(self).rooms@.len(),
                self.sessions == old(self).sessions,
                forall|i: int| 0 <= i < old(self).rooms@.len() ==> #[trigger] self.rooms@[i].name == old(self).rooms@[i].name,
                forall|i: int| 0 <= i < k ==> {
                    &&& #[trigger] self.rooms@[i].members@ == without(old(self).rooms@[i].members@, id)
                    &&& !self.rooms@[i].members@.contains(id)
                },
                forall|i: int| k <= i < old(self).rooms@.len() ==> #[trigger] self.rooms@[i].members@ == old(self).rooms@[i].members@,
                forall|i: int| 0 <= i < self.rooms@.len() ==> (#[trigger] self.rooms@[i]).members@.no_duplicates(),
            decreases self.rooms@.len() - k,
        {
            let stripped = strip(&self.rooms[k].members, id);
            self.rooms[k].members = stripped;
            k += 1;
        }
        proof {
            Self::lemma_same_rooms(*old(self), *self);
            assert forall|n: Seq<char>| #[trigger] self.members_of(n) == without(old(self).members_of(n), id) by {
                if old(self).room_names().contains(n) {
                    let j = old(self).lemma_known_name(n);
                } else {
                    reveal(Seq::filter);
                }
            }
        }
    }

    /// Session `id` leaves every room it is in and enters the room called
    /// `name`, which is made where it does not exist yet. The other members of
    /// that room are told that someone connected.
    pub fn join(&mut self, msg: Join) -> (r: Vec<Delivery>)
        requires
            old(self).wf(),
        ensures
            final(self).wf(),
            Self::joined(*old(self), *final(self), msg.id, msg.name@),
            delivered(r@) == notices(
                recipients(final(self).members_of(msg.name@), final(self).registry().dom(), msg.id),
                "Someone connected"@,
            ),
            recipients(final(self).members_of(msg.name@), final(self).registry().dom(), msg.id).no_duplicates(),
    {
        let Join { id, name } = msg;
        let ghost pre = *self;
        self.leave_all(id);
        let ghost mid = *self;
        match self.find_room(&name) {
            Some(i) => {
                self.rooms[i].members.push(id);
                proof {
                    Self::lemma_same_rooms(mid, *self);
                    mid.lemma_room_names();
                    assert(mid.room_names()[i as int] == name@);
                    assert(self.rooms@[i as int].members@ == mid.rooms@[i as int].members@.push(id));
                    assert forall|n: Seq<char>| #[trigger] self.members_of(n) == (if n == name@ {
                        mid.members_of(n).push(id)
                    } else {
                        mid.members_of(n)
                    }) by {
                        if mid.room_names().contains(n) {
                            let j = mid.lemma_known_name(n);
                            assert(self.members_of(mid.rooms@[j].name@) == self.rooms@[j].members@);
                            assert(mid.members_of(mid.rooms@[j].name@) == mid.rooms@[j].members@);
                            if j != i as int {
                                assert(mid.rooms@[j].name@ != mid.rooms@[i as int].name@);
                                assert(self.rooms@[j] == mid.rooms@[j]);
                            }
                        }
                    }
                }
            },
            None => {
                let mut members: Vec<usize> = Vec::new();
                members.push(id);
                self.rooms.push(Room { name: name.clone(), members });
                proof {
                    let last = mid.rooms@.len() as int;
                    assert forall|i: int, j: int|
                        0 <= i < j < self.rooms@.len() implies #[trigger] self.rooms@[i].name@
                            != #[trigger] self.rooms@[j].name@ by {
                        assert(self.rooms@[i] == mid.rooms@[i]);
                        if j < last {
                            assert(self.rooms@[j] == mid.rooms@[j]);
                        }
                    }
                    assert(self.rooms@[0] == mid.rooms@[0]);
                    assert(self.rooms@[last].members@ =~= seq![id]);
                    assert forall|i: int| 0 <= i < self.rooms@.len() implies (#[trigger] self.rooms@[i]).members@.no_duplicates() by {
                        if i < last {
                            assert(self.rooms@[i] == mid.rooms@[i]);
                        }
                    }
                    mid.lemma_room_names();
                    self.lemma_room_names();
                    assert(self.room_names() =~= mid.room_names().push(name@));
                    assert forall|n: Seq<char>| #[trigger] self.members_of(n) == (if n == name@ {
                        mid.members_of(n).push(id)
                    } else {
                        mid.members_of(n)
                    }) by {
                        if n == name@ {
                            self.lemma_members_at(last);
                            assert(mid.members_of(n) == Seq::<usize>::empty());
                            assert(mid.members_of(n).push(id) =~= seq![id]);
                        } else if mid.room_names().contains(n) {
                            let j = mid.lemma_known_name(n);
                            mid.lemma_members_at(j);
                            assert(self.rooms@[j] == mid.rooms@[j]);
                            self.lemma_members_at(j);
                        } else {
                            assert forall|j: int| 0 <= j < last implies #[trigger] mid.rooms@[j].name@ != n by {
                                assert(mid.room_names()[j] == mid.rooms@[j].name@);
                            }
                            assert forall|j: int| 0 <= j < self.rooms@.len() implies #[trigger] self.rooms@[j].name@ != n by {
                                if j < last {
                                    assert(self.rooms@[j] == mid.rooms@[j]);
                                }
                            }
                        }
                    }
                }
            },
        }
        let text = "Someone connected".to_owned();
        self.send_msg(&name, &text, id)
    }

    /// The sessions told that `id` left: room by room, in the order of
    /// `room_names`, the members other than `id` of each room that holds
    /// `id` that stay live once `id` is gone.
    pub open spec fn departure_recipients(&self, id: usize) -> Seq<usize> {
        self.departures_through(id, self.room_names().len())
    }

    /// `departure_recipients` over the first `k` rooms.
    pub open spec fn departures_through(&self, id: usize, k: nat) -> Seq<usize>
        decreases k,
    {
        if k == 0 {
            Seq::empty()
        } else {
            let m = self.members_of(self.room_names()[k - 1]);
            self.departures_through(id, (k - 1) as nat) + (if m.contains(id) {
                recipients(without(m, id), self.registry().dom().remove(id), id)
            } else {
                Seq::empty()
            })
        }
    }

    /// `post` is `pre` after session `id` disconnected. A live session leaves
    /// the registry and every room; for an id that is not live nothing changes.
    pub open spec fn disconnected(pre: Self, post: Self, id: usize) -> bool {
        if pre.registry().contains_key(id) {
            &&& post.registry() == pre.registry().remove(id)
            &&& post.room_names() == pre.room_names()
            &&& forall|n: Seq<char>| #[trigger] post.members_of(n) == without(pre.members_of(n), id)
        } else {
            post == pre
        }
    }

    /// Session `id` goes away: it leaves the registry and every room it is in,
    /// and the remaining members of each of those rooms are told that someone
    /// disconnected. An id without a live session changes nothing.
    pub fn disconnect(&mut self, msg: Disconnect) -> (r: Vec<Delivery>)
        requires
            old(self).wf(),
        ensures
            final(self).wf(),
            Self::disconnected(*old(self), *final(self), msg.id),
            delivered(r@) == notices(
                if old(self).registry().contains_key(msg.id) {
                    old(self).departure_recipients(msg.id)
                } else {
                    Seq::empty()
                },
                "Some disconnected"@,
            ),
    {
        let id = msg.id;
        let mut out: Vec<Delivery> = Vec::new();
        assert(delivered(out@) =~= Seq::empty());
        let ghost pre = *self;
        if self.sessions.contains_key(&id) {
            self.sessions.remove(&id);
            let text = "Some disconnected".to_owned();
            let ghost live = pre.registry().dom().remove(id);
            assert(self.sessions@.dom() =~= live);
            let mut k: usize = 0;
            while k < self.rooms.len()
                invariant
                    k <= self.rooms@.len(),
                    pre.wf(),
                    self.rooms@.len() == pre.rooms@.len(),
                    self.sessions@ == pre.sessions@.remove(id),
                    self.sessions@.dom() == live,
                    text@ == "Some disconnected"@,
                    forall|i: int| 0 <= i < pre.rooms@.len() ==> #[trigger] self.rooms@[i].name == pre.rooms@[i].name,
                    forall|i: int| 0 <= i < k ==> #[trigger] self.rooms@[i].members@ == without(pre.rooms@[i].members@, id),
                    forall|i: int| k <= i < pre.rooms@.len() ==> #[trigger] self.rooms@[i].members@ == pre.rooms@[i].members@,
                    forall|i: int| 0 <= i < self.rooms@.len() ==> (#[trigger] self.rooms@[i]).members@.no_duplicates(),
                    delivered(out@) == notices(pre.departures_through(id, k as nat), text@),
                decreases self.rooms@.len() - k,
            {
                let held = holds(&self.rooms[k].members, id);
                let stripped = strip(&self.rooms[k].members, id);
                self.rooms[k].members = stripped;
                let ghost before = out@;
                if held {
                    notify(&self.rooms[k].members, &self.sessions, id, &text, &mut out);
                }
                proof {
                    pre.lemma_room_names();
                    pre.lemma_members_at(k as int);
                    let m = pre.rooms@[k as int].members@;
                    assert(pre.members_of(pre.room_names()[k as int]) == m);
                    let extra = if held {
                        recipients(without(m, id), live, id)
                    } else {
                        Seq::empty()
                    };
                    assert(pre.departures_through(id, (k + 1) as nat) == pre.departures_through(id, k as nat) + extra);
                    assert(notices(pre.departures_through(id, (k + 1) as nat), text@) =~= notices(pre.departures_through(id, k as nat), text@) + notices(extra, text@));
                    if !held {
                        assert(notices(extra, text@) =~= Seq::empty());
                    }
                }
                k += 1;
            }
            proof {
                assert(self.registry() =~= pre.registry().remove(id));
                Self::lemma_same_rooms(pre, *self);
                assert forall|n: Seq<char>| #[trigger] self.members_of(n) == without(pre.members_of(n), id) by {
                    if pre.room_names().contains(n) {
                        let j = pre.lemma_known_name(n);
                    } else {
                        reveal(Seq::filter);
                    }
                }
            }
        }
        out
    }

    /// `post` is `pre` after a session with id `id` and capability `addr`
    /// connected: it is registered under `id` and is a member of `"Main"`;
    /// nothing else changed.
    pub open spec fn connected(pre: Self, post: Self, id: usize, addr: C) -> bool {
        &&& post.registry() == pre.registry().insert(id, addr)
        &&& post.room_names() == pre.room_names()
        &&& forall|n: Seq<char>| #[trigger]
            post.members_of(n) == (if n == "Main"@ {
                with_member(pre.members_of(n), id)
            } else {
                pre.members_of(n)
            })
    }

    /// Registers a session under `id` and puts it in `"Main"`, whose members
    /// are first told that someone joined. An id that is already live has its
    /// capability replaced.
    pub fn connect_with_id(&mut self, id: usize, addr: C) -> (r: Vec<Delivery>)
        requires
            old(self).wf(),
        ensures
            final(self).wf(),
            Self::connected(*old(self), *final(self), id, addr),
            delivered(r@) == notices(
                recipients(old(self).members_of("Main"@), old(self).registry().dom(), id),
                "Someone Joined!!"@,
            ),
            recipients(old(self).members_of("Main"@), old(self).registry().dom(), id).no_duplicates(),
    {
        let ghost pre = *self;
        let main = "Main".to_owned();
        let text = "Someone Joined!!".to_owned();
        let out = self.send_msg(&main, &text, id);
        self.sessions.insert(id, addr);
        if !holds(&self.rooms[0].members, id) {
            self.rooms[0].members.push(id);
        }
        proof {
            Self::lemma_same_rooms(pre, *self);
            assert forall|n: Seq<char>| #[trigger] self.members_of(n) == (if n == "Main"@ {
                with_member(pre.members_of(n), id)
            } else {
                pre.members_of(n)
            }) by {
                if pre.room_names().contains(n) {
                    let j = pre.lemma_known_name(n);
                    if j != 0 {
                        assert(pre.rooms@[0].name@ != pre.rooms@[j].name@);
                    }
                }
            }
        }
        out
    }

    /// Registers a session under a fresh random id and puts it in `"Main"`,
    /// whose members are first told that someone joined. Returns the id and
    /// the deliveries owed. The id is not checked against the live sessions.
    pub fn connect(&mut self, msg: Connect<C>) -> (r: (usize, Vec<Delivery>))
        requires
            old(self).wf(),
        ensures
            final(self).wf(),
            Self::connected(*old(self), *final(self), r.0, msg.addr),
            delivered(r.1@) == notices(
                recipients(old(self).members_of("Main"@), old(self).registry().dom(), r.0),
                "Someone Joined!!"@,
            ),
            recipients(old(self).members_of("Main"@), old(self).registry().dom(), r.0).no_duplicates(),
    {
        let id = random_id();
        let out = self.connect_with_id(id, msg.addr);
        (id, out)
    }

    /// Sends the text `msg.msg` from session `msg.id` to the room `msg.room`:
    /// one delivery for each member other than the sender that has a live
    /// session. A room that does not exist yields none.
    pub fn broadcast(&self, msg: &ClientMessage) -> (r: Vec<Delivery>)
        requires
            self.wf(),
        ensures
            delivered(r@) == notices(
                recipients(self.members_of(msg.room@), self.registry().dom(), msg.id),
                msg.msg@,
            ),
            recipients(self.members_of(msg.room@), self.registry().dom(), msg.id).no_duplicates(),
    {
        self.send_msg(&msg.room, &msg.msg, msg.id)
    }

    /// The names of all known rooms, empty ones included.
    pub fn list_rooms(&self) -> (r: Vec<String>)
        requires
            self.wf(),
        ensures
            texts(r@) == self.room_names(),
            texts(r@).no_duplicates(),
    {
        let mut r: Vec<String> = Vec::new();
        let mut k: usize = 0;
        while k < self.rooms.len()
            invariant
                k <= self.rooms@.len(),
                texts(r@) == self.room_names().subrange(0, k as int),
            decreases self.rooms@.len() - k,
        {
            proof {
                self.lemma_room_names();
            }
            let ghost before = r@;
            r.push(self.rooms[k].name.clone());
            assert(texts(r@) =~= texts(before).push(self.rooms@[k as int].name@));
            assert(texts(r@) =~= self.room_names().subrange(0, k + 1));
            k += 1;
        }
        assert(self.room_names().subrange(0, self.rooms@.len() as int) =~= self.room_names());
        proof {
            self.lemma_unique("Main"@);
        }
        r
    }

    /// The members of the room called `name`, in the order in which they
    /// entered it; empty where no such room exists.
    pub fn members(&self, name: &String) -> (r: Vec<usize>)
        requires
            self.wf(),
        ensures
            r@ == self.members_of(name@),
    {
        match self.find_room(name) {
            Some(i) => {
                proof {
                    self.lemma_members_at(i as int);
                }
                self.rooms[i].members.clone()
            },
            None => Vec::new(),
        }
    }

    /// The capability of the live session `id`, if there is one.
    pub fn recipient(&self, id: usize) -> (r: Option<&C>)
        ensures
            match r {
                Some(c) => self.registry().contains_key(id) && *c == self.registry()[id],
                None => !self.registry().contains_key(id),
            },
    {
        self.sessions.get(&id)
    }

    /// The deliveries of `message` from `skip_id` to the room called `room`:
    /// one for each member but the sender that has a live session. None where
    /// the room does not exist.
    pub fn send_msg(&self, room: &String, message: &String, skip_id: usize) -> (r: Vec<Delivery>)
        requires
            self.wf(),
        ensures
            delivered(r@) == notices(
                recipients(self.members_of(room@), self.registry().dom(), skip_id),
                message@,
            ),
            recipients(self.members_of(room@), self.registry().dom(), skip_id).no_duplicates(),
    {
        proof {
            self.lemma_unique(room@);
        }
        let mut out: Vec<Delivery> = Vec::new();
        assert(delivered(out@) =~= Seq::empty());
        match self.find_room(room) {
            Some(i) => {
                proof {
                    self.lemma_members_at(i as int);
                }
                notify(&self.rooms[i].members, &self.sessions, skip_id, message, &mut out);
                assert(delivered(out@) =~= notices(
                    recipients(self.members_of(room@), self.registry().dom(), skip_id),
                    message@,
                ));
            },
            None => {
                proof {
                    reveal(Seq::filter);
                    assert(notices(recipients(self.members_of(room@), self.registry().dom(), skip_id), message@) =~= Seq::empty());
                }
            },
        }
        out
    }
}

impl<C> Default for ChatServer<C> {
    /// A hub with no sessions and one empty room, `"Main"`.
    fn default() -> (r: Self)
        ensures
            r.wf(),
            r.registry() == Map::<usize, C>::empty(),
            r.room_names() == seq!["Main"@],
            forall|name: Seq<char>| #[trigger] r.members_of(name) == Seq::<usize>::empty(),
    {
        Self::new()
    }
}

proof fn lemma_notices_contains(ids: Seq<usize>, text: Seq<char>, a: usize)
    requires
        ids.contains(a),
    ensures
        notices(ids, text).contains((a, text)),
{
    let i = choose|i: int| 0 <= i < ids.len() && ids[i] == a;
    assert(notices(ids, text)[i] == (a, text));
}

/// A broadcast from `sender` to the room `name` reaches exactly the members
/// of that room, other than the sender, that have a live session: no one
/// outside the room, and never the sender.
pub proof fn broadcast_reaches_room_but_sender<C>(hub: ChatServer<C>, sender: usize, name: Seq<char>)
    ensures
        forall|y: usize| #[trigger]
            recipients(hub.members_of(name), hub.registry().dom(), sender).contains(y) <==> {
                &&& hub.in_room(y, name)
                &&& y != sender
                &&& hub.registry().contains_key(y)
            },
{
    broadcast use vstd::seq_lib::group_filter_ensures;
    let m = hub.members_of(name);
    let live = hub.registry().dom();
    assert forall|y: usize|
        hub.in_room(y, name) && y != sender && hub.registry().contains_key(y) implies #[trigger] recipients(
            m,
            live,
            sender,
        ).contains(y) by {
        let i = choose|i: int| 0 <= i < m.len() && m[i] == y;
        assert(reached(live, sender)(m[i]));
    }
    assert forall|y: usize| #[trigger] recipients(m, live, sender).contains(y) implies {
        &&& hub.in_room(y, name)
        &&& y != sender
        &&& hub.registry().contains_key(y)
    } by {
        m.lemma_filter_contains_rev(reached(live, sender), y);
    }
}

/// A broadcast to a room that does not exist reaches no one.
pub proof fn broadcast_to_unknown_room_is_silent<C>(hub: ChatServer<C>, sender: usize, name: Seq<char>, text: Seq<char>)
    requires
        !hub.room_names().contains(name),
    ensures
        notices(recipients(hub.members_of(name), hub.registry().dom(), sender), text) == Seq::<(usize, Seq<char>)>::empty(),
{
    hub.lemma_room_names();
    if exists|i: int| 0 <= i < hub.rooms@.len() && #[trigger] hub.rooms@[i].name@ == name {
        let i = choose|i: int| 0 <= i < hub.rooms@.len() && #[trigger] hub.rooms@[i].name@ == name;
        assert(hub.room_names()[i] == name);
    }
    reveal(Seq::filter);
    assert(notices(recipients(hub.members_of(name), hub.registry().dom(), sender), text) =~= Seq::empty());
}

/// The room `"Main"` is always known.
pub proof fn main_room_always_listed<C>(hub: ChatServer<C>)
    requires
        hub.wf(),
    ensures
        hub.room_names().contains("Main"@),
{
    hub.lemma_room_names();
    assert(hub.room_names()[0] == "Main"@);
}

/// Whatever rooms a session was in before, once it has joined a series of
/// rooms one after the other it is a member of the last of them and of no
/// other room.
pub proof fn joins_leave_one_room<C>(states: Seq<ChatServer<C>>, id: usize, names: Seq<Seq<char>>)
    requires
        names.len() > 0,
        states.len() == names.len() + 1,
        forall|i: int| 0 <= i < names.len() ==> #[trigger] ChatServer::joined(states[i], states[i + 1], id, names[i]),
    ensures
        forall|n: Seq<char>| #[trigger] states.last().in_room(id, n) <==> n == names.last(),
{
    broadcast use vstd::seq_lib::group_filter_ensures;
    let k = names.len() - 1;
    assert(ChatServer::joined(states[k], states[k + 1], id, names[k]));
    assert forall|n: Seq<char>| #[trigger] states.last().in_room(id, n) <==> n == names.last() by {
        let pre = states[k].members_of(n);
        if n == names.last() {
            assert(states.last().members_of(n) == without(pre, id).push(id));
            assert(without(pre, id).push(id)[without(pre, id).len() as int] == id);
        } else {
            assert(states.last().members_of(n) == without(pre, id));
            if without(pre, id).contains(id) {
                pre.lemma_filter_contains_rev(other_than(id), id);
            }
        }
    }
}

/// Once a session that is live, or in no room, disconnects, it is in no room
/// and has no session, so no broadcast from anyone reaches it.
pub proof fn disconnect_removes_session<C>(pre: ChatServer<C>, post: ChatServer<C>, id: usize)
    requires
        ChatServer::disconnected(pre, post, id),
        pre.registry().contains_key(id) || forall|n: Seq<char>| !#[trigger] pre.in_room(id, n),
    ensures
        !post.registry().contains_key(id),
        forall|n: Seq<char>| !#[trigger] post.in_room(id, n),
        forall|sender: usize, n: Seq<char>|
            !#[trigger] recipients(post.members_of(n), post.registry().dom(), sender).contains(id),
{
    broadcast use vstd::seq_lib::group_filter_ensures;
    if pre.registry().contains_key(id) {
        assert forall|n: Seq<char>| !#[trigger] post.in_room(id, n) by {
            if without(pre.members_of(n), id).contains(id) {
                pre.members_of(n).lemma_filter_contains_rev(other_than(id), id);
            }
        }
    }
    assert forall|sender: usize, n: Seq<char>|
        !#[trigger] recipients(post.members_of(n), post.registry().dom(), sender).contains(id) by {
        if recipients(post.members_of(n), post.registry().dom(), sender).contains(id) {
            post.members_of(n).lemma_filter_contains_rev(reached(post.registry().dom(), sender), id);
        }
    }
}

/// When a session joins a room, every other member of that room with a live
/// session is told that someone connected, and the session itself is not.
pub proof fn join_notifies_others<C>(pre: ChatServer<C>, post: ChatServer<C>, id: usize, name: Seq<char>, member: usize)
    requires
        ChatServer::joined(pre, post, id, name),
        pre.in_room(member, name),
        member != id,
        pre.registry().contains_key(member),
    ensures
        notices(recipients(post.members_of(name), post.registry().dom(), id), "Someone connected"@)
            .contains((member, "Someone connected"@)),
        !recipients(post.members_of(name), post.registry().dom(), id).contains(id),
{
    broadcast use vstd::seq_lib::group_filter_ensures;
    let m = pre.members_of(name);
    let i = choose|i: int| 0 <= i < m.len() && m[i] == member;
    assert(other_than(id)(m[i]));
    assert(without(m, id).contains(member));
    let w = without(m, id);
    let j = choose|j: int| 0 <= j < w.len() && w[j] == member;
    assert(post.members_of(name) == w.push(id));
    assert(w.push(id)[j] == member);
    assert(reached(post.registry().dom(), id)(w.push(id)[j]));
    broadcast_reaches_room_but_sender(post, id, name);
    lemma_notices_contains(recipients(post.members_of(name), post.registry().dom(), id), "Someone connected"@, member);
}

/// Connecting, disconnecting, and the joins of live sessions keep every
/// member of every room live.
pub proof fn operations_keep_members_live<C>(pre: ChatServer<C>, post: ChatServer<C>, id: usize, addr: C, name: Seq<char>)
    requires
        pre.members_live(),
    ensures
        ChatServer::connected(pre, post, id, addr) ==> post.members_live(),
        ChatServer::disconnected(pre, post, id) ==> post.members_live(),
        ChatServer::joined(pre, post, id, name) && pre.registry().contains_key(id) ==> post.members_live(),
{
    broadcast use vstd::seq_lib::group_filter_ensures;
    if ChatServer::connected(pre, post, id, addr) {
        assert forall|y: usize, n: Seq<char>| #[trigger] post.in_room(y, n) implies post.registry().contains_key(y) by {
            assert(post.members_of(n) == (if n == "Main"@ { with_member(pre.members_of(n), id) } else { pre.members_of(n) }));
            if y != id {
                if pre.members_of(n).push(id).contains(y) {
                    let i = choose|i: int| 0 <= i < pre.members_of(n).push(id).len() && pre.members_of(n).push(id)[i] == y;
                    assert(pre.members_of(n)[i] == y);
                }
                assert(pre.in_room(y, n));
            }
        }
    }
    if ChatServer::disconnected(pre, post, id) && pre.registry().contains_key(id) {
        assert forall|y: usize, n: Seq<char>| #[trigger] post.in_room(y, n) implies post.registry().contains_key(y) by {
            assert(post.members_of(n) == without(pre.members_of(n), id));
            pre.members_of(n).lemma_filter_contains_rev(other_than(id), y);
            assert(pre.in_room(y, n));
        }
    }
    if ChatServer::joined(pre, post, id, name) && pre.registry().contains_key(id) {
        assert forall|y: usize, n: Seq<char>| #[trigger] post.in_room(y, n) implies post.registry().contains_key(y) by {
            if y != id {
                let w = without(pre.members_of(n), id);
                if w.push(id).contains(y) {
                    let i = choose|i: int| 0 <= i < w.push(id).len() && w.push(id)[i] == y;
                    assert(w[i] == y);
                }
                assert(w.contains(y));
                pre.members_of(n).lemma_filter_contains_rev(other_than(id), y);
                assert(pre.in_room(y, n));
            }
        }
    }
}

/// A session that is not live receives nothing from any broadcast, whatever
/// rooms still list its id.
pub proof fn dead_session_receives_nothing<C>(hub: ChatServer<C>, id: usize, sender: usize, name: Seq<char>)
    requires
        !hub.registry().contains_key(id),
    ensures
        !recipients(hub.members_of(name), hub.registry().dom(), sender).contains(id),
{
    broadcast_reaches_room_but_sender(hub, sender, name);
}

} // verus!
