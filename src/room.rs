use vstd::prelude::*;

verus! {

/// What the room knows of one member: its id and its display name.
pub type MemberView = (u128, Seq<char>);

/// What a delivery says: the id of the receiving member and the text it gets.
pub type DeliveryView = (u128, Seq<char>);

/// Relies on uuid::Uuid::new_v4 and Uuid::as_u128: a random id, of which
/// nothing is promised.
#[verifier::external_body]
fn random_member_id() -> (r: u128) {
    uuid::Uuid::new_v4().as_u128()
}

struct Member {
    id: u128,
    username: String,
}

/// One line of text owed to one connected member.
pub struct Delivery {
    pub to: u128,
    pub text: String,
}

impl Delivery {
    pub open spec fn view(&self) -> DeliveryView {
        (self.to, self.text@)
    }
}

pub open spec fn deliveries_view(ds: Seq<Delivery>) -> Seq<DeliveryView> {
    ds.map_values(|d: Delivery| d.view())
}

/// The outcome of a successful join.
pub struct Joined {
    /// The id under which the new member is registered.
    pub id: u128,
    /// The roster line owed to the new member.
    pub roster: String,
    /// The announcement owed to every earlier member.
    pub deliveries: Vec<Delivery>,
}

/// The chat room: the registry of connected members, in order of joining.
pub struct Room {
    members: Vec<Member>,
    /// Every id ever registered, so that none is given out twice.
    issued: Vec<u128>,
}

pub open spec fn ids_unique(m: Seq<MemberView>) -> bool {
    forall|i: int, j: int| 0 <= i < j < m.len() ==> m[i].0 != m[j].0
}

pub open spec fn has_id(m: Seq<MemberView>, id: u128) -> bool {
    exists|i: int| 0 <= i < m.len() && m[i].0 == id
}

/// The place of the member with the given id (meaningful where `has_id`).
pub open spec fn index_of(m: Seq<MemberView>, id: u128) -> int {
    choose|i: int| 0 <= i < m.len() && m[i].0 == id
}

pub open spec fn names_of(m: Seq<MemberView>) -> Seq<Seq<char>> {
    m.map_values(|p: MemberView| p.1)
}

/// Names joined by a comma and a space.
pub open spec fn joined_names(ns: Seq<Seq<char>>) -> Seq<char>
    decreases ns.len(),
{
    if ns.len() == 0 {
        Seq::empty()
    } else if ns.len() == 1 {
        ns[0]
    } else {
        joined_names(ns.drop_last()) + ", "@ + ns.last()
    }
}

pub open spec fn roster_text(m: Seq<MemberView>) -> Seq<char> {
    "* The room contains: "@ + joined_names(names_of(m)) + "\n"@
}

pub open spec fn entered_text(name: Seq<char>) -> Seq<char> {
    "* "@ + name + " has entered the room\n"@
}

pub open spec fn left_text(name: Seq<char>) -> Seq<char> {
    "* "@ + name + " has left the room\n"@
}

pub open spec fn chat_text(name: Seq<char>, body: Seq<char>) -> Seq<char> {
    "["@ + name + "] "@ + body
}

/// The text, addressed to every member but the sender, in the room's order.
pub open spec fn fan_out(m: Seq<MemberView>, sender: u128, text: Seq<char>) -> Seq<DeliveryView>
    decreases m.len(),
{
    if m.len() == 0 {
        Seq::empty()
    } else {
        let earlier = fan_out(m.drop_last(), sender, text);
        if m.last().0 == sender {
            earlier
        } else {
            earlier.push((m.last().0, text))
        }
    }
}

/// The texts addressed to `who`, in the order in which they are delivered.
pub open spec fn inbox(ds: Seq<DeliveryView>, who: u128) -> Seq<Seq<char>>
    decreases ds.len(),
{
    if ds.len() == 0 {
        Seq::empty()
    } else if ds.last().0 == who {
        inbox(ds.drop_last(), who).push(ds.last().1)
    } else {
        inbox(ds.drop_last(), who)
    }
}

/// The members after the first `k` joins into an empty room, each join as
/// `Room::join_as` makes it.
pub open spec fn after_joins(ids: Seq<u128>, names: Seq<Seq<char>>, k: nat) -> Seq<MemberView>
    decreases k,
{
    if k == 0 {
        Seq::empty()
    } else {
        let m = after_joins(ids, names, (k - 1) as nat);
        if has_id(m, ids[k - 1]) {
            m
        } else {
            m.push((ids[k - 1], names[k - 1]))
        }
    }
}

/// `head`, then `name`, then `tail`.
fn framed(head: &str, name: &String, tail: &str) -> (r: String)
    ensures
        r@ == head@ + name@ + tail@,
{
    let mut out = String::from_str(head);
    out.append(name.as_str());
    out.append(tail);
    out
}

impl View for Room {
    type V = Seq<MemberView>;

    closed spec fn view(&self) -> Seq<MemberView> {
        self.members@.map_values(|u: Member| (u.id, u.username@))
    }
}

impl Room {
    /// The ids registered so far, members that have left included.
    pub closed spec fn issued_ids(&self) -> Seq<u128> {
        self.issued@
    }

    pub open spec fn wf(&self) -> bool {
        &&& ids_unique(self@)
        &&& forall|i: int| 0 <= i < self@.len() ==> self.issued_ids().contains(#[trigger] self@[i].0)
    }

    /// An empty room.
    pub fn new() -> (r: Room)
        ensures
            r@ == Seq::<MemberView>::empty(),
            r.issued_ids() == Seq::<u128>::empty(),
            r.wf(),
    {
        Room { members: Vec::new(), issued: Vec::new() }
    }

    /// Whether this id has ever been registered.
    pub fn was_issued(&self, id: u128) -> (r: bool)
        ensures
            r == self.issued_ids().contains(id),
    {
        let mut i: usize = 0;
        while i < self.issued.len()
            invariant
                i <= self.issued.len(),
                forall|k: int| 0 <= k < i ==> self.issued@[k] != id,
            decreases self.issued.len() - i,
        {
            if self.issued[i] == id {
                assert(self.issued@[i as int] == id);
                return true;
            }
            i += 1;
        }
        false
    }

    pub fn len(&self) -> (r: usize)
        ensures
            r == self@.len(),
    {
        self.members.len()
    }

    /// Where the member with this id stands, if it is in the room.
    pub fn position(&self, id: u128) -> (r: Option<usize>)
        requires
            self.wf(),
        ensures
            r is None <==> !has_id(self@, id),
            r matches Some(i) ==> i < self@.len() && self@[i as int].0 == id && i == index_of(self@, id),
    {
        let mut i: usize = 0;
        while i < self.members.len()
            invariant
                i <= self.members.len(),
                self.wf(),
                forall|k: int| 0 <= k < i ==> self@[k].0 != id,
            decreases self.members.len() - i,
        {
            if self.members[i].id == id {
                proof {
                    let j = index_of(self@, id);
                    assert(self@[i as int].0 == id);
                    assert(has_id(self@, id));
                    assert(0 <= j < self@.len() && self@[j].0 == id);
                    if j < i {
                        assert(self@[j].0 != self@[i as int].0);
                    } else if j > i {
                        assert(self@[i as int].0 != self@[j].0);
                    }
                }
                return Some(i);
            }
            i += 1;
        }
        None
    }

    pub fn contains(&self, id: u128) -> (r: bool)
        requires
            self.wf(),
        ensures
            r == has_id(self@, id),
    {
        self.position(id).is_some()
    }

    /// The names of the members, in order of joining, separated by ", ".
    pub fn get_usernames(&self) -> (r: String)
        ensures
            r@ == joined_names(names_of(self@)),
    {
        let mut out = String::new();
        let mut i: usize = 0;
        while i < self.members.len()
            invariant
                i <= self.members.len(),
                out@ == joined_names(names_of(self@.subrange(0, i as int))),
            decreases self.members.len() - i,
        {
            if i > 0 {
                out.append(", ");
            }
            out.append(self.members[i].username.as_str());
            proof {
                let ns = names_of(self@.subrange(0, i + 1));
                assert(ns.drop_last() =~= names_of(self@.subrange(0, i as int)));
                assert(ns.last() == self@[i as int].1);
                if i == 0 {
                    assert(ns.len() == 1);
                }
            }
            i += 1;
        }
        assert(self@.subrange(0, self@.len() as int) =~= self@);
        out
    }

    /// The text addressed to every member but `sender`.
    fn fan_out_exec(&self, sender: u128, text: &String) -> (r: Vec<Delivery>)
        ensures
            deliveries_view(r@) == fan_out(self@, sender, text@),
    {
        let mut out: Vec<Delivery> = Vec::new();
        let mut i: usize = 0;
        while i < self.members.len()
            invariant
                i <= self.members.len(),
                deliveries_view(out@) == fan_out(self@.subrange(0, i as int), sender, text@),
            decreases self.members.len() - i,
        {
            let ghost before = out@;
            proof {
                assert(self@.subrange(0, i + 1).drop_last() =~= self@.subrange(0, i as int));
            }
            if self.members[i].id != sender {
                out.push(Delivery { to: self.members[i].id, text: text.clone() });
                assert(deliveries_view(out@) =~= deliveries_view(before).push((self@[i as int].0, text@)));
            }
            i += 1;
        }
        assert(self@.subrange(0, self@.len() as int) =~= self@);
        out
    }

    /// Registers a member under the given id. Where the id has been registered
    /// before, by a member present or gone, nothing changes and `None` comes
    /// back; else the member joins last, and the result holds the roster line of
    /// the members before it and the announcement of its arrival to each of them.
    pub fn join_as(&mut self, id: u128, username: String) -> (r: Option<Joined>)
        requires
            old(self).wf(),
        ensures
            final(self).wf(),
            old(self).issued_ids().contains(id) ==> r is None && final(self)@ == old(self)@
                && final(self).issued_ids() == old(self).issued_ids(),
            !old(self).issued_ids().contains(id) ==> r is Some && !has_id(old(self)@, id)
                && final(self)@ == old(self)@.push((id, username@))
                && final(self).issued_ids() == old(self).issued_ids().push(id),
            r matches Some(j) ==> j.id == id && j.roster@ == roster_text(old(self)@)
                && deliveries_view(j.deliveries@) == fan_out(old(self)@, id, entered_text(username@)),
    {
        if self.was_issued(id) {
            return None;
        }
        proof {
            if has_id(self@, id) {
                let i = choose|i: int| 0 <= i < self@.len() && self@[i].0 == id;
                assert(self.issued_ids().contains(self@[i].0));
            }
        }
        let names = self.get_usernames();
        let roster = framed("* The room contains: ", &names, "\n");
        let entered = framed("* ", &username, " has entered the room\n");
        let deliveries = self.fan_out_exec(id, &entered);
        let ghost before = self@;
        let ghost issued_before = self.issued_ids();
        self.members.push(Member { id, username });
        self.issued.push(id);
        proof {
            assert(self@ =~= before.push((id, username@)));
            assert forall|i: int| 0 <= i < self@.len() implies self.issued_ids().contains(#[trigger] self@[i].0) by {
                if i < before.len() {
                    assert(issued_before.contains(before[i].0));
                    let k = choose|k: int| 0 <= k < issued_before.len() && issued_before[k] == before[i].0;
                    assert(self.issued_ids()[k] == before[i].0);
                } else {
                    assert(self.issued_ids()[issued_before.len() as int] == id);
                }
            }
            assert forall|i: int, j: int| 0 <= i < j < self@.len() implies self@[i].0 != self@[j].0 by {
                if j == before.len() {
                    assert(before[i].0 != id);
                }
            }
        }
        Some(Joined { id, roster, deliveries })
    }

    /// Registers a member under a random id, as `join_as` does. It succeeds
    /// where no id has been registered yet; else `None` where the id drawn was
    /// registered before, which is left to chance.
    pub fn join(&mut self, username: String) -> (r: Option<Joined>)
        requires
            old(self).wf(),
        ensures
            final(self).wf(),
            old(self).issued_ids().len() == 0 ==> r is Some,
            r is None ==> final(self)@ == old(self)@ && final(self).issued_ids() == old(self).issued_ids(),
            r matches Some(j) ==> !old(self).issued_ids().contains(j.id) && !has_id(old(self)@, j.id)
                && final(self).issued_ids() == old(self).issued_ids().push(j.id)
                && final(self)@ == old(self)@.push((j.id, username@))
                && j.roster@ == roster_text(old(self)@)
                && deliveries_view(j.deliveries@) == fan_out(old(self)@, j.id, entered_text(username@)),
    {
        let id = random_member_id();
        self.join_as(id, username)
    }

    /// Removes the member with this id, which must be in the room; the result
    /// is the departure announced to each remaining member.
    pub fn leave(&mut self, id: u128) -> (r: Vec<Delivery>)
        requires
            old(self).wf(),
            has_id(old(self)@, id),
        ensures
            final(self).wf(),
            final(self).issued_ids() == old(self).issued_ids(),
            final(self)@ == old(self)@.remove(index_of(old(self)@, id)),
            deliveries_view(r@) == fan_out(
                final(self)@,
                id,
                left_text(old(self)@[index_of(old(self)@, id)].1),
            ),
    {
        match self.position(id) {
            None => Vec::new(),
            Some(i) => {
                let ghost before = self@;
                let gone = self.members.remove(i);
                proof {
                    assert(self@ =~= before.remove(i as int));
                    assert forall|a: int| 0 <= a < self@.len() implies self.issued_ids().contains(#[trigger] self@[a].0) by {
                        if a < i {
                            assert(self@[a] == before[a]);
                        } else {
                            assert(self@[a] == before[a + 1]);
                        }
                    }
                    assert forall|a: int, b: int| 0 <= a < b < self@.len() implies self@[a].0 != self@[b].0 by {
                        if a < i && b >= i {
                            assert(before[a].0 != before[b + 1].0);
                        } else if a >= i {
                            assert(before[a + 1].0 != before[b + 1].0);
                        } else {
                            assert(before[a].0 != before[b].0);
                        }
                    }
                }
                let text = framed("* ", &gone.username, " has left the room\n");
                self.fan_out_exec(id, &text)
            }
        }
    }

    /// The message of `sender`, which must be in the room, under its name,
    /// addressed to every other member.
    pub fn broadcast(&self, sender: u128, body: &str) -> (r: Vec<Delivery>)
        requires
            self.wf(),
            has_id(self@, sender),
        ensures
            deliveries_view(r@) == fan_out(
                self@,
                sender,
                chat_text(self@[index_of(self@, sender)].1, body@),
            ),
    {
        match self.position(sender) {
            None => Vec::new(),
            Some(i) => {
                let mut text = framed("[", &self.members[i].username, "] ");
                text.append(body);
                self.fan_out_exec(sender, &text)
            }
        }
    }
}

/// Of a fan-out, a member other than the sender gets the text exactly once,
/// and the sender and those outside the room get nothing.
pub proof fn lemma_broadcast_reaches_others_once(m: Seq<MemberView>, sender: u128, text: Seq<char>, who: u128)
    requires
        ids_unique(m),
    ensures
        inbox(fan_out(m, sender, text), who) == if has_id(m, who) && who != sender {
            seq![text]
        } else {
            Seq::<Seq<char>>::empty()
        },
    decreases m.len(),
{
    if m.len() > 0 {
        let rest = m.drop_last();
        assert(ids_unique(rest));
        lemma_broadcast_reaches_others_once(rest, sender, text, who);
        let earlier = fan_out(rest, sender, text);
        if who != m.last().0 {
            if has_id(m, who) {
                let i = choose|i: int| 0 <= i < m.len() && m[i].0 == who;
                assert(rest[i].0 == who);
            }
            if has_id(rest, who) {
                let i = choose|i: int| 0 <= i < rest.len() && rest[i].0 == who;
                assert(m[i].0 == who);
            }
            if m.last().0 != sender {
                assert(earlier.push((m.last().0, text)).drop_last() =~= earlier);
            }
        } else {
            assert(m[m.len() - 1].0 == who);
            assert(has_id(m, who));
            assert(!has_id(rest, who)) by {
                if has_id(rest, who) {
                    let i = choose|i: int| 0 <= i < rest.len() && rest[i].0 == who;
                    assert(m[i].0 != m[m.len() - 1].0);
                }
            }
            if m.last().0 != sender {
                assert(earlier.push((m.last().0, text)).drop_last() =~= earlier);
                assert(inbox(earlier, who) =~= Seq::<Seq<char>>::empty());
                assert(Seq::<Seq<char>>::empty().push(text) =~= seq![text]);
            }
        }
    }
}

/// What one member receives of two operations run one after the other is
/// what it receives of the first, then what it receives of the second.
pub proof fn lemma_inbox_in_order(first: Seq<DeliveryView>, second: Seq<DeliveryView>, who: u128)
    ensures
        inbox(first + second, who) == inbox(first, who) + inbox(second, who),
    decreases second.len(),
{
    if second.len() == 0 {
        assert(first + second =~= first);
        assert(inbox(first, who) + inbox(second, who) =~= inbox(first, who));
    } else {
        lemma_inbox_in_order(first, second.drop_last(), who);
        assert((first + second).drop_last() =~= first + second.drop_last());
        assert((first + second).last() == second.last());
        if second.last().0 == who {
            assert(inbox(first, who) + inbox(second.drop_last(), who).push(second.last().1)
                =~= (inbox(first, who) + inbox(second.drop_last(), who)).push(second.last().1));
        }
    }
}

/// A message that the room accepts before another reaches every third member
/// that is in the room for both before the other.
pub proof fn lemma_messages_keep_their_order(
    m1: Seq<MemberView>,
    a: u128,
    t1: Seq<char>,
    m2: Seq<MemberView>,
    b: u128,
    t2: Seq<char>,
    who: u128,
)
    requires
        ids_unique(m1),
        ids_unique(m2),
        has_id(m1, who),
        has_id(m2, who),
        who != a,
        who != b,
    ensures
        inbox(fan_out(m1, a, t1) + fan_out(m2, b, t2), who) == seq![t1, t2],
{
    lemma_inbox_in_order(fan_out(m1, a, t1), fan_out(m2, b, t2), who);
    lemma_broadcast_reaches_others_once(m1, a, t1, who);
    lemma_broadcast_reaches_others_once(m2, b, t2, who);
    assert(seq![t1] + seq![t2] =~= seq![t1, t2]);
}

/// Members that join an empty room one after another, with distinct ids, all
/// get in, and the roster shown to each newcomer names exactly those who
/// joined before it, in the order in which they joined.
pub proof fn lemma_roster_lists_earlier_joiners(ids: Seq<u128>, names: Seq<Seq<char>>, k: nat)
    requires
        ids.len() == names.len(),
        k < ids.len(),
        forall|i: int, j: int| 0 <= i < j < ids.len() ==> ids[i] != ids[j],
    ensures
        !has_id(after_joins(ids, names, k), ids[k as int]),
        after_joins(ids, names, k + 1) == after_joins(ids, names, k).push((ids[k as int], names[k as int])),
        roster_text(after_joins(ids, names, k))
            == "* The room contains: "@ + joined_names(names.subrange(0, k as int)) + "\n"@,
{
    lemma_after_joins_in_order(ids, names, k);
    let m = after_joins(ids, names, k);
    assert(names_of(m) =~= names.subrange(0, k as int));
    if has_id(m, ids[k as int]) {
        let i = choose|i: int| 0 <= i < m.len() && m[i].0 == ids[k as int];
        assert(ids[i] != ids[k as int]);
    }
}

proof fn lemma_after_joins_in_order(ids: Seq<u128>, names: Seq<Seq<char>>, k: nat)
    requires
        ids.len() == names.len(),
        k <= ids.len(),
        forall|i: int, j: int| 0 <= i < j < ids.len() ==> ids[i] != ids[j],
    ensures
        after_joins(ids, names, k).len() == k,
        forall|i: int| 0 <= i < k ==> #[trigger] after_joins(ids, names, k)[i] == (ids[i], names[i]),
    decreases k,
{
    if k > 0 {
        lemma_after_joins_in_order(ids, names, (k - 1) as nat);
        let m = after_joins(ids, names, (k - 1) as nat);
        if has_id(m, ids[k - 1]) {
            let i = choose|i: int| 0 <= i < m.len() && m[i].0 == ids[k - 1];
            assert(ids[i] != ids[k - 1]);
        }
    }
}

/// A member that has left is out of the room: the others keep distinct ids,
/// it is no member that could leave again, and no later fan-out reaches it.
pub proof fn lemma_left_member_is_gone(m: Seq<MemberView>, id: u128, sender: u128, text: Seq<char>)
    requires
        ids_unique(m),
        has_id(m, id),
    ensures
        ids_unique(m.remove(index_of(m, id))),
        !has_id(m.remove(index_of(m, id)), id),
        inbox(fan_out(m.remove(index_of(m, id)), sender, text), id) == Seq::<Seq<char>>::empty(),
{
    let i = index_of(m, id);
    let rest = m.remove(i);
    assert forall|a: int, b: int| 0 <= a < b < rest.len() implies rest[a].0 != rest[b].0 by {
        if a < i && b >= i {
            assert(m[a].0 != m[b + 1].0);
        } else if a >= i {
            assert(m[a + 1].0 != m[b + 1].0);
        } else {
            assert(m[a].0 != m[b].0);
        }
    }
    if has_id(rest, id) {
        let j = choose|j: int| 0 <= j < rest.len() && rest[j].0 == id;
        if j < i {
            assert(m[j].0 != m[i].0);
        } else {
            assert(m[i].0 != m[j + 1].0);
        }
    }
    lemma_broadcast_reaches_others_once(rest, sender, text, id);
}

} // verus!
