use vstd::prelude::*;

use crate::assoc::{
    contains_id, has_quorum, insert_id, keys_unique, lemma_map_of_all,
    lemma_map_of_index, lemma_map_of_push, lemma_map_of_update, map_of, quorum,
};
use crate::Id;

verus! {

/// A node of the roster with its insertion rank.
#[derive(Clone, Copy, Debug, PartialEq, Eq, Hash, PartialOrd, Ord, Structural)]
pub struct Member {
    pub ord_idx: u64,
    pub id: Id,
}

/// Members are ordered by insertion rank, then by id.
pub open spec fn member_lt(a: Member, b: Member) -> bool {
    a.ord_idx < b.ord_idx || (a.ord_idx == b.ord_idx && a.id < b.id)
}

pub open spec fn sorted_members(s: Seq<Member>) -> bool {
    forall|i: int, j: int| 0 <= i < j < s.len() ==> member_lt(#[trigger] s[i], #[trigger] s[j])
}

pub open spec fn ids_distinct(s: Seq<Member>) -> bool {
    forall|i: int, j: int|
        0 <= i < s.len() && 0 <= j < s.len() && i != j ==> (#[trigger] s[i]).id != (
        #[trigger] s[j]).id
}

/// A pending tally with each witness list read as a set.
pub open spec fn tally_view(s: Seq<(Member, Vec<Id>)>) -> Seq<(Member, Set<Id>)> {
    s.map_values(|p: (Member, Vec<Id>)| (p.0, p.1@.to_set()))
}

/// Witnesses recorded for `m` in a tally; none where `m` is not pending.
pub open spec fn witnesses_in(t: Map<Member, Set<Id>>, m: Member) -> Set<Id> {
    if t.contains_key(m) {
        t[m]
    } else {
        Set::empty()
    }
}

/// The tally after `w` has witnessed `m`.
pub open spec fn witnessed(t: Map<Member, Set<Id>>, m: Member, w: Id) -> Map<Member, Set<Id>> {
    t.insert(m, witnesses_in(t, m).insert(w))
}

/// Pending entries whose witnesses hold a strict majority of `elders`.
pub open spec fn ready(t: Map<Member, Set<Id>>, elders: Seq<Id>) -> Set<Member> {
    t.dom().filter(|m: Member| has_quorum(t[m], elders))
}

/// The roster after `c` is committed into `s` while `dead` holds the departed ids:
/// a dead id is never committed, and of two members with one id the larger rank stays.
pub open spec fn promote_one(s: Set<Member>, c: Member, dead: Set<Id>) -> Set<Member> {
    if dead.contains(c.id) {
        s
    } else if exists|e: Member| #[trigger] s.contains(e) && e.id == c.id && e.ord_idx >= c.ord_idx {
        s
    } else {
        s.filter(|e: Member| e.id != c.id).insert(c)
    }
}

/// The committed roster of a node, with the joins and leaves it has seen
/// witnessed but not yet committed.
#[derive(Clone, Debug, PartialEq, Eq, Hash, PartialOrd, Ord)]
pub struct StableSet {
    /// Committed members, in increasing order of rank, then id.
    pub members: Vec<Member>,
    /// Ids that have left, each once.
    pub dead: Vec<Id>,
    /// Candidates to join, each with the ids that witnessed it.
    pub joining_members: Vec<(Member, Vec<Id>)>,
    /// Members on their way out, each with the ids that witnessed it.
    pub leaving_members: Vec<(Member, Vec<Id>)>,
}

/// Index of the entry for `m` in a tally.
fn find_entry(t: &Vec<(Member, Vec<Id>)>, m: Member) -> (r: Option<usize>)
    requires
        keys_unique(tally_view(t@)),
    ensures
        match r {
            Some(i) => i < t.len() && t@[i as int].0 == m,
            None => !map_of(tally_view(t@)).contains_key(m),
        },
{
    let mut i: usize = 0;
    while i < t.len()
        invariant
            i <= t.len(),
            forall|j: int| 0 <= j < i ==> (#[trigger] t@[j]).0 != m,
        decreases t.len() - i,
    {
        if t[i].0 == m {
            return Some(i);
        }
        i = i + 1;
    }
    proof {
        lemma_map_of_all(tally_view(t@));
    }
    None
}

/// Records `w` as a witness of `m` in a tally; true when `w` was not recorded yet.
fn tally_add(t: &mut Vec<(Member, Vec<Id>)>, m: Member, w: Id) -> (r: bool)
    requires
        keys_unique(tally_view(old(t)@)),
    ensures
        keys_unique(tally_view(final(t)@)),
        map_of(tally_view(final(t)@)) == witnessed(map_of(tally_view(old(t)@)), m, w),
        r == !witnesses_in(map_of(tally_view(old(t)@)), m).contains(w),
{
    let ghost tv = tally_view(t@);
    match find_entry(t, m) {
        Some(i) => {
            proof {
                lemma_map_of_index(tv, i as int);
            }
            let mut ws = t[i].1.clone();
            proof {
                assert(ws@ =~= t@[i as int].1@);
            }
            let r = insert_id(&mut ws, w);
            t.set(i, (m, ws));
            proof {
                assert(tally_view(t@) =~= tv.update(i as int, (m, ws@.to_set())));
                lemma_map_of_update(tv, i as int, ws@.to_set());
            }
            r
        },
        None => {
            let mut ws: Vec<Id> = Vec::new();
            ws.push(w);
            proof {
                assert(ws@.to_set() =~= Set::<Id>::empty().insert(w)) by {
                    assert(ws@[0] == w);
                }
            }
            t.push((m, ws));
            proof {
                assert(tally_view(t@) =~= tv.push((m, ws@.to_set())));
                lemma_map_of_push(tv, m, ws@.to_set());
            }
            true
        },
    }
}

/// The witnesses recorded for `m` in a tally.
fn tally_witnesses(t: &Vec<(Member, Vec<Id>)>, m: Member) -> (r: Vec<Id>)
    requires
        keys_unique(tally_view(t@)),
    ensures
        r@.to_set() == witnesses_in(map_of(tally_view(t@)), m),
{
    match find_entry(t, m) {
        Some(i) => {
            proof {
                lemma_map_of_index(tally_view(t@), i as int);
            }
            let r = t[i].1.clone();
            proof {
                assert(r@ =~= t@[i as int].1@);
            }
            r
        },
        None => {
            let r: Vec<Id> = Vec::new();
            proof {
                assert(r@.to_set() =~= Set::<Id>::empty());
            }
            r
        },
    }
}

impl StableSet {
    pub open spec fn member_set(&self) -> Set<Member> {
        self.members@.to_set()
    }

    pub open spec fn dead_set(&self) -> Set<Id> {
        self.dead@.to_set()
    }

    pub open spec fn joining_map(&self) -> Map<Member, Set<Id>> {
        map_of(tally_view(self.joining_members@))
    }

    pub open spec fn leaving_map(&self) -> Map<Member, Set<Id>> {
        map_of(tally_view(self.leaving_members@))
    }

    /// Some committed member has this id.
    pub open spec fn is_member_id(&self, id: Id) -> bool {
        exists|i: int| 0 <= i < self.members@.len() && (#[trigger] self.members@[i]).id == id
    }

    /// The id is a committed member or has left.
    pub open spec fn seen(&self, id: Id) -> bool {
        self.dead@.contains(id) || self.is_member_id(id)
    }

    /// Members sorted and one per id, none of them dead, tallies keyed once per member.
    pub open spec fn wf(&self) -> bool {
        &&& sorted_members(self.members@)
        &&& ids_distinct(self.members@)
        &&& forall|i: int|
            0 <= i < self.members@.len() ==> !self.dead@.contains(#[trigger] self.members@[i].id)
        &&& keys_unique(tally_view(self.joining_members@))
        &&& keys_unique(tally_view(self.leaving_members@))
    }

    /// Index of the committed member with this id.
    fn find_id(&self, id: Id) -> (r: Option<usize>)
        ensures
            match r {
                Some(i) => i < self.members.len() && self.members@[i as int].id == id,
                None => !self.is_member_id(id),
            },
    {
        let mut i: usize = 0;
        while i < self.members.len()
            invariant
                i <= self.members.len(),
                forall|j: int| 0 <= j < i ==> (#[trigger] self.members@[j]).id != id,
            decreases self.members.len() - i,
        {
            if self.members[i].id == id {
                return Some(i);
            }
            i = i + 1;
        }
        None
    }

    pub fn member_by_id(&self, id: Id) -> (r: Option<Member>)
        ensures
            match r {
                Some(m) => self.member_set().contains(m) && m.id == id,
                None => !self.is_member_id(id),
            },
    {
        match self.find_id(id) {
            Some(i) => {
                proof {
                    assert(self.members@.contains(self.members@[i as int]));
                }
                Some(self.members[i])
            },
            None => None,
        }
    }

    pub fn contains(&self, id: Id) -> (r: bool)
        ensures
            r == self.is_member_id(id),
    {
        self.find_id(id).is_some()
    }

    pub fn has_seen(&self, id: Id) -> (r: bool)
        ensures
            r == self.seen(id),
    {
        contains_id(&self.dead, id) || self.contains(id)
    }

    pub fn has_member(&self, member: &Member) -> (r: bool)
        ensures
            r == self.member_set().contains(*member),
    {
        let mut i: usize = 0;
        while i < self.members.len()
            invariant
                i <= self.members.len(),
                forall|j: int| 0 <= j < i ==> self.members@[j] != *member,
            decreases self.members.len() - i,
        {
            if self.members[i] == *member {
                return true;
            }
            i = i + 1;
        }
        false
    }

    /// Ids of the committed members, in roster order.
    pub fn ids(&self) -> (r: Vec<Id>)
        ensures
            r@ == self.members@.map_values(|m: Member| m.id),
    {
        let mut r: Vec<Id> = Vec::new();
        let mut i: usize = 0;
        while i < self.members.len()
            invariant
                i <= self.members.len(),
                r@ == self.members@.subrange(0, i as int).map_values(|m: Member| m.id),
            decreases self.members.len() - i,
        {
            r.push(self.members[i].id);
            i = i + 1;
            proof {
                assert(r@ =~= self.members@.subrange(0, i as int).map_values(|m: Member| m.id));
            }
        }
        proof {
            assert(self.members@.subrange(0, i as int) =~= self.members@);
        }
        r
    }

    /// The committed members, in roster order.
    pub fn members(&self) -> (r: Vec<Member>)
        ensures
            r@ == self.members@,
    {
        let r = self.members.clone();
        proof {
            assert(r@ =~= self.members@);
        }
        r
    }

    /// The candidates to join that have been witnessed, in tally order.
    pub fn joining(&self) -> (r: Vec<Member>)
        ensures
            r@.to_set() == self.joining_map().dom(),
    {
        tally_keys(&self.joining_members)
    }

    /// The members on their way out that have been witnessed, in tally order.
    pub fn leaving(&self) -> (r: Vec<Member>)
        ensures
            r@.to_set() == self.leaving_map().dom(),
    {
        tally_keys(&self.leaving_members)
    }

    /// The witnesses of a candidate's join.
    pub fn witnesses(&self, member: &Member) -> (r: Vec<Id>)
        requires
            self.wf(),
        ensures
            r@.to_set() == witnesses_in(self.joining_map(), *member),
    {
        tally_witnesses(&self.joining_members, *member)
    }

    /// The witnesses of a member's leave.
    pub fn leaving_witnesses(&self, member: &Member) -> (r: Vec<Id>)
        requires
            self.wf(),
        ensures
            r@.to_set() == witnesses_in(self.leaving_map(), *member),
    {
        tally_witnesses(&self.leaving_members, *member)
    }

    /// Records `witness` for the join of `member`, unless its id is a member or
    /// has left. True when the witness was recorded for the first time.
    pub fn add(&mut self, member: Member, witness: Id) -> (r: bool)
        requires
            old(self).wf(),
        ensures
            final(self).wf(),
            final(self).members == old(self).members,
            final(self).dead == old(self).dead,
            final(self).leaving_members == old(self).leaving_members,
            old(self).seen(member.id) ==> final(self).joining_map() == old(self).joining_map(),
            !old(self).seen(member.id) ==> final(self).joining_map() == witnessed(
                old(self).joining_map(),
                member,
                witness,
            ),
            r == (!old(self).seen(member.id) && !witnesses_in(old(self).joining_map(), member).contains(
                witness,
            )),
    {
        if self.has_seen(member.id) {
            false
        } else {
            tally_add(&mut self.joining_members, member, witness)
        }
    }

    /// Records `witness` for the leave of `member`, unless its id has already left.
    /// True when the witness was recorded for the first time.
    pub fn remove(&mut self, member: Member, witness: Id) -> (r: bool)
        requires
            old(self).wf(),
        ensures
            final(self).wf(),
            final(self).members == old(self).members,
            final(self).dead == old(self).dead,
            final(self).joining_members == old(self).joining_members,
            old(self).dead@.contains(member.id) ==> final(self).leaving_map() == old(
                self,
            ).leaving_map(),
            !old(self).dead@.contains(member.id) ==> final(self).leaving_map() == witnessed(
                old(self).leaving_map(),
                member,
                witness,
            ),
            r == (!old(self).dead@.contains(member.id) && !witnesses_in(
                old(self).leaving_map(),
                member,
            ).contains(witness)),
    {
        if contains_id(&self.dead, member.id) {
            false
        } else {
            tally_add(&mut self.leaving_members, member, witness)
        }
    }
}

/// The members for which a tally holds an entry, in its order.
fn tally_keys(t: &Vec<(Member, Vec<Id>)>) -> (r: Vec<Member>)
    ensures
        r@.to_set() == map_of(tally_view(t@)).dom(),
{
    let mut r: Vec<Member> = Vec::new();
    let mut i: usize = 0;
    while i < t.len()
        invariant
            i <= t.len(),
            r@.len() == i,
            forall|j: int| 0 <= j < i ==> #[trigger] r@[j] == t@[j].0,
        decreases t.len() - i,
    {
        r.push(t[i].0);
        i = i + 1;
    }
    proof {
        let tv = tally_view(t@);
        assert forall|m: Member| #[trigger] r@.to_set().contains(m) == map_of(tv).dom().contains(m) by {
            if map_of(tv).dom().contains(m) {
                let j = choose|j: int| 0 <= j < tv.len() && (#[trigger] tv[j]).0 == m;
                assert(r@[j] == m);
            }
            if r@.contains(m) {
                let j = choose|j: int| 0 <= j < r@.len() && r@[j] == m;
                assert(tv[j].0 == m);
            }
        }
        assert(r@.to_set() =~= map_of(tv).dom());
    }
    r
}

/// Splits a tally into the members whose witnesses hold a quorum of `elders`
/// and the entries that stay pending.
fn split_ready(t: &Vec<(Member, Vec<Id>)>, elders: &Vec<Id>) -> (r: (Vec<Member>, Vec<(Member, Vec<Id>)>))
    requires
        keys_unique(tally_view(t@)),
    ensures
        r.0@.to_set() == ready(map_of(tally_view(t@)), elders@),
        keys_unique(tally_view(r.1@)),
        map_of(tally_view(r.1@)) == map_of(tally_view(t@)).remove_keys(
            ready(map_of(tally_view(t@)), elders@),
        ),
{
    let ghost tv = tally_view(t@);
    let mut done: Vec<Member> = Vec::new();
    let mut kept: Vec<(Member, Vec<Id>)> = Vec::new();
    let mut i: usize = 0;
    while i < t.len()
        invariant
            i <= t.len(),
            tv == tally_view(t@),
            keys_unique(tv),
            forall|m: Member|
                #[trigger] done@.contains(m) <==> exists|j: int|
                    0 <= j < i && (#[trigger] tv[j]).0 == m && has_quorum(tv[j].1, elders@),
            keys_unique(tally_view(kept@)),
            forall|m: Member|
                #[trigger] map_of(tally_view(kept@)).contains_key(m) <==> exists|j: int|
                    0 <= j < i && (#[trigger] tv[j]).0 == m && !has_quorum(tv[j].1, elders@),
            forall|j: int|
                0 <= j < i && !has_quorum(tv[j].1, elders@) ==> map_of(tally_view(kept@))[(
                #[trigger] tv[j]).0] == tv[j].1,
        decreases t.len() - i,
    {
        let ghost kv = tally_view(kept@);
        let ghost d0 = done@;
        assert(tv[i as int] == (t@[i as int].0, t@[i as int].1@.to_set()));
        if quorum(&t[i].1, elders) {
            done.push(t[i].0);
            proof {
                assert forall|m: Member| #[trigger] done@.contains(m) <==> exists|j: int|
                    0 <= j < i + 1 && (#[trigger] tv[j]).0 == m && has_quorum(tv[j].1, elders@) by {
                    if done@.contains(m) {
                        let k = choose|k: int| 0 <= k < done@.len() && done@[k] == m;
                        if k < d0.len() {
                            assert(d0[k] == m);
                            assert(d0.contains(m));
                        }
                    }
                    if exists|j: int|
                        0 <= j < i + 1 && (#[trigger] tv[j]).0 == m && has_quorum(tv[j].1, elders@) {
                        let j = choose|j: int|
                            0 <= j < i + 1 && (#[trigger] tv[j]).0 == m && has_quorum(tv[j].1, elders@);
                        if j < i {
                            assert(d0.contains(m));
                            let k = choose|k: int| 0 <= k < d0.len() && d0[k] == m;
                            assert(done@[k] == m);
                        } else {
                            assert(done@[d0.len() as int] == m);
                        }
                    }
                }
            }
        } else {
            let ws = t[i].1.clone();
            proof {
                assert(ws@ =~= t@[i as int].1@);
                if map_of(kv).contains_key(t@[i as int].0) {
                    let j = choose|j: int|
                        0 <= j < i && (#[trigger] tv[j]).0 == t@[i as int].0 && !has_quorum(tv[j].1, elders@);
                    assert(tv[j].0 != tv[i as int].0);
                }
                lemma_map_of_push(kv, t@[i as int].0, ws@.to_set());
            }
            kept.push((t[i].0, ws));
            proof {
                assert(tally_view(kept@) =~= kv.push((t@[i as int].0, ws@.to_set())));
                assert forall|m: Member| #[trigger] map_of(tally_view(kept@)).contains_key(m) <==> exists|j: int|
                    0 <= j < i + 1 && (#[trigger] tv[j]).0 == m && !has_quorum(tv[j].1, elders@) by {
                    if m != tv[i as int].0 && map_of(tally_view(kept@)).contains_key(m) {
                        assert(map_of(kv).contains_key(m));
                    }
                }
                assert forall|j: int|
                    0 <= j < i + 1 && !has_quorum(tv[j].1, elders@) implies map_of(tally_view(kept@))[(
                    #[trigger] tv[j]).0] == tv[j].1 by {
                    if j < i {
                        assert(tv[j].0 != tv[i as int].0);
                    }
                }
            }
        }
        i = i + 1;
    }
    proof {
        lemma_map_of_all(tv);
        let rd = ready(map_of(tv), elders@);
        assert forall|m: Member| #[trigger] done@.to_set().contains(m) == rd.contains(m) by {
            if done@.contains(m) {
                let j = choose|j: int| 0 <= j < i && (#[trigger] tv[j]).0 == m && has_quorum(tv[j].1, elders@);
                assert(map_of(tv)[tv[j].0] == tv[j].1);
            }
            if rd.contains(m) {
                let j = choose|j: int| 0 <= j < tv.len() && (#[trigger] tv[j]).0 == m;
                assert(map_of(tv)[tv[j].0] == tv[j].1);
            }
        }
        assert(done@.to_set() =~= rd);
        let target = map_of(tv).remove_keys(rd);
        assert forall|m: Member| #[trigger] map_of(tally_view(kept@)).contains_key(m) == target.contains_key(m) by {
            if map_of(tally_view(kept@)).contains_key(m) {
                let j = choose|j: int| 0 <= j < i && (#[trigger] tv[j]).0 == m && !has_quorum(tv[j].1, elders@);
                assert(map_of(tv)[tv[j].0] == tv[j].1);
            }
            if target.contains_key(m) {
                let j = choose|j: int| 0 <= j < tv.len() && (#[trigger] tv[j]).0 == m;
                assert(map_of(tv)[tv[j].0] == tv[j].1);
            }
        }
        assert forall|m: Member| #[trigger] map_of(tally_view(kept@)).contains_key(m) implies map_of(tally_view(kept@))[m] == target[m] by {
            let j = choose|j: int| 0 <= j < i && (#[trigger] tv[j]).0 == m && !has_quorum(tv[j].1, elders@);
            assert(map_of(tv)[tv[j].0] == tv[j].1);
        }
        assert(map_of(tally_view(kept@)) =~= target);
    }
    (done, kept)
}

/// Inserts `c` into a sorted roster that holds no member with its id.
fn insert_sorted(v: &mut Vec<Member>, c: Member)
    requires
        sorted_members(old(v)@),
        ids_distinct(old(v)@),
        forall|i: int| 0 <= i < old(v)@.len() ==> (#[trigger] old(v)@[i]).id != c.id,
    ensures
        sorted_members(final(v)@),
        ids_distinct(final(v)@),
        final(v)@.to_set() == old(v)@.to_set().insert(c),
        forall|i: int|
            0 <= i < final(v)@.len() ==> #[trigger] final(v)@[i] == c || old(v)@.contains(
                final(v)@[i],
            ),
{
    let ghost s = v@;
    let mut p: usize = 0;
    while p < v.len() && (v[p].ord_idx < c.ord_idx || (v[p].ord_idx == c.ord_idx && v[p].id
        < c.id))
        invariant
            v@ == s,
            p <= v.len(),
            forall|j: int| 0 <= j < p ==> member_lt(#[trigger] s[j], c),
        decreases v.len() - p,
    {
        p = p + 1;
    }
    assert(forall|j: int| p <= j < s.len() ==> member_lt(c, #[trigger] s[j])) by {
        if p < s.len() {
            assert(s[p as int].id != c.id);
            assert(member_lt(c, s[p as int]));
        }
    }
    v.insert(p, c);
    proof {
        let t = v@;
        assert forall|k: int| 0 <= k < t.len() implies #[trigger] t[k] == if k < p {
            s[k]
        } else if k == p {
            c
        } else {
            s[k - 1]
        } by {}
        assert forall|i: int, j: int| 0 <= i < j < t.len() implies member_lt(
            #[trigger] t[i],
            #[trigger] t[j],
        ) by {
            if j < p {
            } else if j == p {
            } else if i == p {
            } else if i < p {
                assert(member_lt(s[i], c));
            } else {
            }
        }
        assert forall|i: int, j: int|
            0 <= i < t.len() && 0 <= j < t.len() && i != j implies (#[trigger] t[i]).id != (
            #[trigger] t[j]).id by {
            let i1 = if i < p { i } else { i - 1 };
            let j_next = if j < p { j } else { j - 1 };
            if i != p && j != p {
                assert(s[i1].id != s[j_next].id);
            }
        }
        assert forall|k: int| 0 <= k < t.len() implies #[trigger] t[k] == c || s.contains(t[k]) by {
            if k < p {
                assert(s[k] == t[k]);
            } else if k > p {
                assert(s[k - 1] == t[k]);
            }
        }
        assert forall|m: Member| #[trigger] t.to_set().contains(m) == s.to_set().insert(c).contains(m) by {
            if t.contains(m) {
                let k = choose|k: int| 0 <= k < t.len() && t[k] == m;
                if k < p {
                    assert(s[k] == m);
                } else if k > p {
                    assert(s[k - 1] == m);
                }
            }
            if s.contains(m) {
                let k = choose|k: int| 0 <= k < s.len() && s[k] == m;
                if k < p {
                    assert(t[k] == m);
                } else {
                    assert(t[k + 1] == m);
                }
            }
            if m == c {
                assert(t[p as int] == c);
            }
        }
        assert(t.to_set() =~= s.to_set().insert(c));
    }
}

/// Removing one entry keeps a roster sorted, one member per id.
proof fn lemma_remove_member(s: Seq<Member>, j: int)
    requires
        sorted_members(s),
        ids_distinct(s),
        0 <= j < s.len(),
    ensures
        sorted_members(s.remove(j)),
        ids_distinct(s.remove(j)),
        s.remove(j).to_set() == s.to_set().filter(|e: Member| e.id != s[j].id),
        forall|i: int| 0 <= i < s.remove(j).len() ==> s.contains(#[trigger] s.remove(j)[i]),
{
    let t = s.remove(j);
    assert forall|k: int| 0 <= k < t.len() implies #[trigger] t[k] == if k < j {
        s[k]
    } else {
        s[k + 1]
    } by {}
    assert forall|a: int, b: int| 0 <= a < b < t.len() implies member_lt(
        #[trigger] t[a],
        #[trigger] t[b],
    ) by {
        let a1 = if a < j { a } else { a + 1 };
        let b1 = if b < j { b } else { b + 1 };
        assert(member_lt(s[a1], s[b1]));
    }
    assert forall|a: int, b: int|
        0 <= a < t.len() && 0 <= b < t.len() && a != b implies (#[trigger] t[a]).id != (
        #[trigger] t[b]).id by {
        let a1 = if a < j { a } else { a + 1 };
        let b1 = if b < j { b } else { b + 1 };
        assert(s[a1].id != s[b1].id);
    }
    assert forall|k: int| 0 <= k < t.len() implies s.contains(#[trigger] t[k]) by {
        let k1 = if k < j { k } else { k + 1 };
        assert(s[k1] == t[k]);
    }
    assert forall|m: Member| #[trigger] t.to_set().contains(m) == s.to_set().filter(
        |e: Member| e.id != s[j].id,
    ).contains(m) by {
        if t.contains(m) {
            let k = choose|k: int| 0 <= k < t.len() && t[k] == m;
            let k1 = if k < j { k } else { k + 1 };
            assert(s[k1] == m);
            assert(s[k1].id != s[j].id);
        }
        if s.contains(m) && m.id != s[j].id {
            let k = choose|k: int| 0 <= k < s.len() && s[k] == m;
            if k < j {
                assert(t[k] == m);
            } else {
                assert(k != j);
                assert(t[k - 1] == m);
            }
        }
    }
    assert(t.to_set() =~= s.to_set().filter(|e: Member| e.id != s[j].id));
}

impl StableSet {
    /// Commits `c` to the roster as `promote_one` describes.
    fn promote(&mut self, c: Member)
        requires
            old(self).wf(),
        ensures
            final(self).wf(),
            final(self).member_set() == promote_one(old(self).member_set(), c, old(self).dead_set()),
            final(self).dead == old(self).dead,
            final(self).joining_members == old(self).joining_members,
            final(self).leaving_members == old(self).leaving_members,
    {
        let ghost s = self.members@;
        if contains_id(&self.dead, c.id) {
            return;
        }
        match self.find_id(c.id) {
            Some(j) => {
                if self.members[j].ord_idx >= c.ord_idx {
                    proof {
                        assert(s.to_set().contains(s[j as int]));
                    }
                    return;
                }
                proof {
                    lemma_remove_member(s, j as int);
                    assert forall|e: Member| #[trigger] s.to_set().contains(e) && e.id == c.id implies e.ord_idx < c.ord_idx by {
                        let k = choose|k: int| 0 <= k < s.len() && s[k] == e;
                        assert(k == j);
                    }
                }
                self.members.remove(j);
                proof {
                    assert forall|i: int| 0 <= i < self.members@.len() implies (#[trigger] self.members@[i]).id != c.id by {
                        assert(s.contains(self.members@[i]));
                        let k = choose|k: int| 0 <= k < s.len() && s[k] == self.members@[i];
                        assert(k != j);
                    }
                }
                insert_sorted(&mut self.members, c);
                proof {
                    assert forall|i: int| 0 <= i < self.members@.len() implies !self.dead@.contains(#[trigger] self.members@[i].id) by {
                        if self.members@[i] != c {
                            let k = choose|k: int| 0 <= k < s.remove(j as int).len() && s.remove(j as int)[k] == self.members@[i];
                            assert(s.contains(s.remove(j as int)[k]));
                        }
                    }
                }
            },
            None => {
                proof {
                    assert forall|i: int| 0 <= i < s.len() implies (#[trigger] s[i]).id != c.id by {}
                    assert(s.to_set().filter(|e: Member| e.id != c.id) =~= s.to_set());
                    assert(!exists|e: Member| #[trigger] s.to_set().contains(e) && e.id == c.id && e.ord_idx >= c.ord_idx);
                }
                insert_sorted(&mut self.members, c);
                proof {
                    assert forall|i: int| 0 <= i < self.members@.len() implies !self.dead@.contains(#[trigger] self.members@[i].id) by {
                        if self.members@[i] != c {
                            let k = choose|k: int| 0 <= k < s.len() && s[k] == self.members@[i];
                        }
                    }
                }
            },
        }
    }
}

/// `s` holds, for every live id among the candidates `c`, the candidate with the
/// largest rank, and nothing else.
pub open spec fn best_of(s: Set<Member>, c: Set<Member>, dead: Set<Id>) -> bool {
    &&& forall|m: Member| #[trigger] s.contains(m) ==> c.contains(m) && !dead.contains(m.id)
    &&& forall|m: Member, x: Member|
        #[trigger] s.contains(m) && #[trigger] c.contains(x) && x.id == m.id ==> x.ord_idx
            <= m.ord_idx
    &&& forall|x: Member|
        #[trigger] c.contains(x) && !dead.contains(x.id) ==> exists|m: Member|
            #[trigger] s.contains(m) && m.id == x.id
}

/// No two members of `s` share an id.
pub open spec fn one_per_id(s: Set<Member>) -> bool {
    forall|a: Member, b: Member| #[trigger] s.contains(a) && #[trigger] s.contains(b) && a.id == b.id ==> a == b
}

/// In a well-formed stable set no id is committed twice: two committed members
/// with one id are the same member.
pub proof fn lemma_member_ids_unique(s: StableSet)
    requires
        s.wf(),
    ensures
        one_per_id(s.member_set()),
        forall|m: Member| #[trigger] s.member_set().contains(m) ==> !s.dead_set().contains(m.id),
{
    lemma_one_per_id(s.members@);
    assert forall|m: Member| #[trigger] s.member_set().contains(m) implies !s.dead_set().contains(m.id) by {
        let i = choose|i: int| 0 <= i < s.members@.len() && s.members@[i] == m;
        assert(!s.dead@.contains(s.members@[i].id));
    }
}

pub proof fn lemma_one_per_id(v: Seq<Member>)
    requires
        ids_distinct(v),
    ensures
        one_per_id(v.to_set()),
{
    assert forall|a: Member, b: Member| #[trigger] v.to_set().contains(a) && #[trigger] v.to_set().contains(b) && a.id == b.id implies a == b by {
        let i = choose|i: int| 0 <= i < v.len() && v[i] == a;
        let j = choose|j: int| 0 <= j < v.len() && v[j] == b;
        if i != j {
            assert(v[i].id != v[j].id);
        }
    }
}

proof fn lemma_best_step(s: Set<Member>, c: Set<Member>, x: Member, dead: Set<Id>)
    requires
        best_of(s, c, dead),
        one_per_id(s),
    ensures
        best_of(promote_one(s, x, dead), c.insert(x), dead),
{
    let s_after = promote_one(s, x, dead);
    let c2 = c.insert(x);
    if dead.contains(x.id) {
        assert forall|y: Member| #[trigger] c2.contains(y) && !dead.contains(y.id) implies exists|m: Member|
            #[trigger] s_after.contains(m) && m.id == y.id by {
            assert(c.contains(y));
        }
    } else if exists|e: Member| #[trigger] s.contains(e) && e.id == x.id && e.ord_idx >= x.ord_idx {
        let e = choose|e: Member| #[trigger] s.contains(e) && e.id == x.id && e.ord_idx >= x.ord_idx;
        assert forall|m: Member, y: Member|
            #[trigger] s_after.contains(m) && #[trigger] c2.contains(y) && y.id == m.id implies y.ord_idx
                <= m.ord_idx by {
            if y == x {
                assert(m == e);
            }
        }
        assert forall|y: Member| #[trigger] c2.contains(y) && !dead.contains(y.id) implies exists|m: Member|
            #[trigger] s_after.contains(m) && m.id == y.id by {
            if y != x {
                assert(c.contains(y));
            }
        }
    } else {
        assert forall|m: Member| #[trigger] s_after.contains(m) implies c2.contains(m) && !dead.contains(m.id) by {}
        assert forall|m: Member, y: Member|
            #[trigger] s_after.contains(m) && #[trigger] c2.contains(y) && y.id == m.id implies y.ord_idx
                <= m.ord_idx by {
            if m == x {
                if y != x {
                    assert(c.contains(y));
                    let m0 = choose|m0: Member| #[trigger] s.contains(m0) && m0.id == y.id;
                    assert(y.ord_idx <= m0.ord_idx);
                    assert(!(m0.ord_idx >= x.ord_idx));
                }
            } else {
                assert(s.contains(m));
                assert(m.id != x.id);
                assert(c.contains(y));
            }
        }
        assert forall|y: Member| #[trigger] c2.contains(y) && !dead.contains(y.id) implies exists|m: Member|
            #[trigger] s_after.contains(m) && m.id == y.id by {
            if y.id == x.id {
                assert(s_after.contains(x));
            } else {
                assert(c.contains(y));
                let m0 = choose|m0: Member| #[trigger] s.contains(m0) && m0.id == y.id;
                assert(s_after.contains(m0));
            }
        }
    }
}

proof fn lemma_best_is(s: Set<Member>, c: Set<Member>, dead: Set<Id>)
    requires
        best_of(s, c, dead),
        one_per_id(s),
    ensures
        forall|m: Member|
            #[trigger] s.contains(m) <==> (c.contains(m) && !dead.contains(m.id) && forall|x: Member|
                #[trigger] c.contains(x) && x.id == m.id ==> x.ord_idx <= m.ord_idx),
{
    assert forall|m: Member|
        #[trigger] s.contains(m) <== (c.contains(m) && !dead.contains(m.id) && forall|x: Member|
            #[trigger] c.contains(x) && x.id == m.id ==> x.ord_idx <= m.ord_idx) by {
        if c.contains(m) && !dead.contains(m.id) && forall|x: Member|
            #[trigger] c.contains(x) && x.id == m.id ==> x.ord_idx <= m.ord_idx {
            let m0 = choose|m0: Member| #[trigger] s.contains(m0) && m0.id == m.id;
            assert(c.contains(m0));
            assert(m.ord_idx <= m0.ord_idx);
            assert(m0.ord_idx <= m.ord_idx);
        }
    }
}

/// Ids of the members whose leave holds a quorum of `elders`.
pub open spec fn left_ids_of(leaving: Map<Member, Set<Id>>, elders: Seq<Id>) -> Set<Id> {
    ready(leaving, elders).map(|m: Member| m.id)
}

/// Committed members and the candidates whose join holds a quorum of `elders`.
pub open spec fn candidates_of(
    members: Set<Member>,
    joining: Map<Member, Set<Id>>,
    elders: Seq<Id>,
) -> Set<Member> {
    members.union(ready(joining, elders))
}

/// The roster once the ready joins and leaves are committed: of each id that
/// has not left, the candidate with the largest rank.
pub open spec fn promoted_of(
    members: Set<Member>,
    dead: Set<Id>,
    joining: Map<Member, Set<Id>>,
    leaving: Map<Member, Set<Id>>,
    elders: Seq<Id>,
) -> Set<Member> {
    Set::new(
        |m: Member|
            candidates_of(members, joining, elders).contains(m) && !dead.contains(m.id)
                && !left_ids_of(leaving, elders).contains(m.id) && forall|x: Member|
                #[trigger] candidates_of(members, joining, elders).contains(x) && x.id == m.id
                    ==> x.ord_idx <= m.ord_idx,
    )
}

impl StableSet {
    /// Ids of the members whose leave holds a quorum of `elders`.
    pub open spec fn left_ids(&self, elders: Seq<Id>) -> Set<Id> {
        left_ids_of(self.leaving_map(), elders)
    }

    /// The roster once the ready joins and leaves are committed.
    pub open spec fn promoted(&self, elders: Seq<Id>) -> Set<Member> {
        promoted_of(self.member_set(), self.dead_set(), self.joining_map(), self.leaving_map(), elders)
    }

    /// Commits every pending join and leave whose witnesses hold a strict majority
    /// of `elders`. True when any of them did.
    pub fn process_ready_actions(&mut self, elders: &Vec<Id>) -> (r: bool)
        requires
            old(self).wf(),
        ensures
            final(self).wf(),
            final(self).member_set() == old(self).promoted(elders@),
            final(self).dead_set() == old(self).dead_set().union(old(self).left_ids(elders@)),
            final(self).joining_map() == old(self).joining_map().remove_keys(
                ready(old(self).joining_map(), elders@),
            ),
            final(self).leaving_map() == old(self).leaving_map().remove_keys(
                ready(old(self).leaving_map(), elders@),
            ),
            r == (ready(old(self).joining_map(), elders@) != Set::<Member>::empty() || ready(
                old(self).leaving_map(),
                elders@,
            ) != Set::<Member>::empty()),
    {
        let ghost m0 = self.member_set();
        let ghost d0 = self.dead_set();
        let ghost rj = ready(self.joining_map(), elders@);
        let ghost rl = ready(self.leaving_map(), elders@);
        let ghost pre = *self;
        let (joins, kept_j) = split_ready(&self.joining_members, elders);
        let (leaves, kept_l) = split_ready(&self.leaving_members, elders);
        self.joining_members = kept_j;
        self.leaving_members = kept_l;
        proof {
            lemma_one_per_id(self.members@);
            assert(best_of(m0, m0.union(joins@.subrange(0, 0).to_set()), d0)) by {
                assert(m0.union(joins@.subrange(0, 0).to_set()) =~= m0);
                assert forall|m: Member, x: Member|
                    #[trigger] m0.contains(m) && #[trigger] m0.contains(x) && x.id == m.id implies x.ord_idx
                        <= m.ord_idx by {
                    assert(x == m);
                }
            }
        }
        let mut i: usize = 0;
        while i < joins.len()
            invariant
                self.wf(),
                self.dead == pre.dead,
                self.dead_set() == d0,
                self.joining_members == kept_j,
                self.leaving_members == kept_l,
                i <= joins.len(),
                best_of(self.member_set(), m0.union(joins@.subrange(0, i as int).to_set()), d0),
            decreases joins.len() - i,
        {
            proof {
                lemma_one_per_id(self.members@);
                lemma_best_step(self.member_set(), m0.union(joins@.subrange(0, i as int).to_set()), joins@[i as int], d0);
                assert(m0.union(joins@.subrange(0, i as int).to_set()).insert(joins@[i as int]) =~= m0.union(joins@.subrange(0, i + 1).to_set())) by {
                    assert(joins@.subrange(0, i + 1) =~= joins@.subrange(0, i as int).push(joins@[i as int]));
                    assert forall|m: Member| #[trigger] joins@.subrange(0, i + 1).contains(m) == (joins@.subrange(0, i as int).contains(m) || m == joins@[i as int]) by {
                        if joins@.subrange(0, i as int).contains(m) {
                            let k = choose|k: int| 0 <= k < i && joins@.subrange(0, i as int)[k] == m;
                            assert(joins@.subrange(0, i + 1)[k] == m);
                        }
                        if m == joins@[i as int] {
                            assert(joins@.subrange(0, i + 1)[i as int] == m);
                        }
                    }
                }
            }
            self.promote(joins[i]);
            i = i + 1;
        }
        let ghost sj = self.member_set();
        proof {
            assert(joins@.subrange(0, joins@.len() as int) =~= joins@);
            lemma_one_per_id(self.members@);
            lemma_best_is(sj, m0.union(rj), d0);
        }
        let mut k: usize = 0;
        while k < leaves.len()
            invariant
                self.wf(),
                self.joining_members == kept_j,
                self.leaving_members == kept_l,
                k <= leaves.len(),
                forall|m: Member| #[trigger] self.member_set().contains(m) <==> (sj.contains(m) && forall|j: int| 0 <= j < k ==> (#[trigger] leaves@[j]).id != m.id),
                forall|x: Id| #[trigger] self.dead_set().contains(x) <==> (d0.contains(x) || exists|j: int| 0 <= j < k && (#[trigger] leaves@[j]).id == x),
            decreases leaves.len() - k,
        {
            let l = leaves[k];
            let ghost s = self.members@;
            let ghost ms = self.member_set();
            let ghost ds = self.dead_set();
            match self.find_id(l.id) {
                Some(j) => {
                    proof {
                        lemma_remove_member(s, j as int);
                    }
                    self.members.remove(j);
                    proof {
                        assert forall|i2: int| 0 <= i2 < self.members@.len() implies !self.dead@.contains(#[trigger] self.members@[i2].id) by {
                            assert(s.contains(self.members@[i2]));
                        }
                    }
                },
                None => {
                    proof {
                        assert(s.to_set().filter(|e: Member| e.id != l.id) =~= s.to_set());
                    }
                },
            }
            proof {
                assert(self.members@.to_set() =~= s.to_set().filter(|e: Member| e.id != l.id));
                assert forall|i2: int| 0 <= i2 < self.members@.len() implies (#[trigger] self.members@[i2]).id != l.id by {
                    assert(self.members@.to_set().contains(self.members@[i2]));
                }
            }
            insert_id(&mut self.dead, l.id);
            proof {
                assert forall|i2: int| 0 <= i2 < self.members@.len() implies !self.dead@.contains(#[trigger] self.members@[i2].id) by {
                    assert(!ds.contains(self.members@[i2].id));
                    assert(!self.dead@.to_set().contains(self.members@[i2].id));
                }
                assert forall|m: Member| #[trigger] self.member_set().contains(m) <==> (sj.contains(m) && forall|j: int| 0 <= j < k + 1 ==> (#[trigger] leaves@[j]).id != m.id) by {
                    assert(ms.contains(m) == (sj.contains(m) && forall|j: int| 0 <= j < k ==> (#[trigger] leaves@[j]).id != m.id));
                }
                assert forall|x: Id| #[trigger] self.dead_set().contains(x) <==> (d0.contains(x) || exists|j: int| 0 <= j < k + 1 && (#[trigger] leaves@[j]).id == x) by {
                    assert(ds.contains(x) == (d0.contains(x) || exists|j: int| 0 <= j < k && (#[trigger] leaves@[j]).id == x));
                    if x == l.id {
                        assert(leaves@[k as int].id == x);
                    }
                }
            }
            k = k + 1;
        }
        proof {
            let lids = pre.left_ids(elders@);
            assert forall|x: Id| lids.contains(x) <==> exists|j: int| 0 <= j < leaves@.len() && (#[trigger] leaves@[j]).id == x by {
                if lids.contains(x) {
                    let m = choose|m: Member| rl.contains(m) && m.id == x;
                    assert(leaves@.to_set().contains(m));
                    let j = choose|j: int| 0 <= j < leaves@.len() && leaves@[j] == m;
                    assert(leaves@[j].id == x);
                }
                if exists|j: int| 0 <= j < leaves@.len() && (#[trigger] leaves@[j]).id == x {
                    let j = choose|j: int| 0 <= j < leaves@.len() && (#[trigger] leaves@[j]).id == x;
                    assert(leaves@.to_set().contains(leaves@[j]));
                    assert(rl.contains(leaves@[j]));
                }
            }
            assert(self.dead_set() =~= d0.union(lids));
            assert(self.member_set() =~= pre.promoted(elders@));
            if joins.len() > 0 {
                assert(rj.contains(joins@[0]));
            } else {
                assert(rj =~= Set::<Member>::empty());
            }
            if leaves.len() > 0 {
                assert(rl.contains(leaves@[0]));
            } else {
                assert(rl =~= Set::<Member>::empty());
            }
        }
        joins.len() > 0 || leaves.len() > 0
    }
}

/// The join tally after every member of `incoming` whose id `ss` has not seen is
/// witnessed by `w`.
pub open spec fn adopted(ss: StableSet, incoming: Set<Member>, w: Id) -> Map<Member, Set<Id>> {
    Map::new(
        |m: Member| ss.joining_map().contains_key(m) || (incoming.contains(m) && !ss.seen(m.id)),
        |m: Member|
            if incoming.contains(m) && !ss.seen(m.id) {
                witnesses_in(ss.joining_map(), m).insert(w)
            } else {
                ss.joining_map()[m]
            },
    )
}

/// The leave tally after every member of `incoming` whose id has not left is
/// witnessed by `w`.
pub open spec fn adopted_leaves(ss: StableSet, incoming: Set<Member>, w: Id) -> Map<Member, Set<Id>> {
    Map::new(
        |m: Member| ss.leaving_map().contains_key(m) || (incoming.contains(m) && !ss.dead@.contains(m.id)),
        |m: Member|
            if incoming.contains(m) && !ss.dead@.contains(m.id) {
                witnesses_in(ss.leaving_map(), m).insert(w)
            } else {
                ss.leaving_map()[m]
            },
    )
}

/// A tally whose entries all have empty witness sets.
fn keys_only(t: &Vec<(Member, Vec<Id>)>) -> (r: Vec<(Member, Vec<Id>)>)
    requires
        keys_unique(tally_view(t@)),
    ensures
        keys_unique(tally_view(r@)),
        map_of(tally_view(r@)).dom() == map_of(tally_view(t@)).dom(),
        forall|m: Member| #[trigger]
            map_of(tally_view(r@)).contains_key(m) ==> map_of(tally_view(r@))[m] == Set::<
                Id,
            >::empty(),
{
    let mut r: Vec<(Member, Vec<Id>)> = Vec::new();
    let mut i: usize = 0;
    while i < t.len()
        invariant
            i <= t.len(),
            r@.len() == i,
            forall|j: int| 0 <= j < i ==> (#[trigger] r@[j]).0 == t@[j].0 && r@[j].1@.len() == 0,
        decreases t.len() - i,
    {
        r.push((t[i].0, Vec::new()));
        i = i + 1;
    }
    proof {
        let rv = tally_view(r@);
        let tv = tally_view(t@);
        assert forall|a: int, b: int| 0 <= a < b < rv.len() implies (#[trigger] rv[a]).0 != (
        #[trigger] rv[b]).0 by {
            assert(tv[a].0 != tv[b].0);
        }
        lemma_map_of_all(rv);
        lemma_map_of_all(tv);
        assert forall|m: Member| #[trigger] map_of(rv).dom().contains(m) == map_of(tv).dom().contains(m) by {
            if map_of(rv).contains_key(m) {
                let j = choose|j: int| 0 <= j < rv.len() && (#[trigger] rv[j]).0 == m;
                assert(tv[j].0 == m);
            }
            if map_of(tv).contains_key(m) {
                let j = choose|j: int| 0 <= j < tv.len() && (#[trigger] tv[j]).0 == m;
                assert(rv[j].0 == m);
            }
        }
        assert(map_of(rv).dom() =~= map_of(tv).dom());
        assert forall|m: Member| #[trigger] map_of(rv).contains_key(m) implies map_of(rv)[m] == Set::<Id>::empty() by {
            let j = choose|j: int| 0 <= j < rv.len() && (#[trigger] rv[j]).0 == m;
            assert(r@[j].1@.len() == 0);
            assert(rv[j].1 =~= Set::<Id>::empty());
        }
    }
    r
}

impl StableSet {
    /// An empty roster with nothing pending.
    pub fn new() -> (r: StableSet)
        ensures
            r.wf(),
            r.members@ == Seq::<Member>::empty(),
            r.dead@ == Seq::<Id>::empty(),
            r.joining_map() == Map::<Member, Set<Id>>::empty(),
            r.leaving_map() == Map::<Member, Set<Id>>::empty(),
    {
        let r = StableSet {
            members: Vec::new(),
            dead: Vec::new(),
            joining_members: Vec::new(),
            leaving_members: Vec::new(),
        };
        proof {
            assert(r.joining_map() =~= Map::<Member, Set<Id>>::empty());
            assert(r.leaving_map() =~= Map::<Member, Set<Id>>::empty());
        }
        r
    }

    /// A copy of this set as it travels between nodes: the same roster and
    /// departed ids, the same pending members, and no witnesses.
    pub fn without_witnesses(&self) -> (r: StableSet)
        requires
            self.wf(),
        ensures
            r.wf(),
            r.members@ == self.members@,
            r.dead@ == self.dead@,
            r.joining_map().dom() == self.joining_map().dom(),
            r.leaving_map().dom() == self.leaving_map().dom(),
            forall|m: Member| #[trigger]
                r.joining_map().contains_key(m) ==> r.joining_map()[m] == Set::<Id>::empty(),
            forall|m: Member| #[trigger]
                r.leaving_map().contains_key(m) ==> r.leaving_map()[m] == Set::<Id>::empty(),
    {
        let members = self.members.clone();
        let dead = self.dead.clone();
        proof {
            assert(members@ =~= self.members@);
            assert(dead@ =~= self.dead@);
        }
        StableSet {
            members,
            dead,
            joining_members: keys_only(&self.joining_members),
            leaving_members: keys_only(&self.leaving_members),
        }
    }

    /// Takes every member of `other` whose id this set has not seen as a candidate
    /// witnessed by `witness`, and every leaving member of `other` whose id has not
    /// left as a leave witnessed by `witness`, then commits what is ready under `elders`.
    pub fn merge(&mut self, witness: Id, other: StableSet, elders: &Vec<Id>)
        requires
            old(self).wf(),
        ensures
            final(self).wf(),
            final(self).member_set() == promoted_of(
                old(self).member_set(),
                old(self).dead_set(),
                adopted(*old(self), other.member_set(), witness),
                adopted_leaves(*old(self), other.leaving_map().dom(), witness),
                elders@,
            ),
            final(self).dead_set() == old(self).dead_set().union(
                left_ids_of(adopted_leaves(*old(self), other.leaving_map().dom(), witness), elders@),
            ),
            final(self).joining_map() == adopted(*old(self), other.member_set(), witness).remove_keys(
                ready(adopted(*old(self), other.member_set(), witness), elders@),
            ),
            final(self).leaving_map() == adopted_leaves(
                *old(self),
                other.leaving_map().dom(),
                witness,
            ).remove_keys(
                ready(adopted_leaves(*old(self), other.leaving_map().dom(), witness), elders@),
            ),
    {
        let ghost pre = *self;
        let mut i: usize = 0;
        proof {
            assert(adopted(pre, other.members@.subrange(0, 0).to_set(), witness) =~= pre.joining_map());
        }
        while i < other.members.len()
            invariant
                self.wf(),
                i <= other.members.len(),
                self.members == pre.members,
                self.dead == pre.dead,
                self.leaving_members == pre.leaving_members,
                self.joining_map() == adopted(pre, other.members@.subrange(0, i as int).to_set(), witness),
            decreases other.members.len() - i,
        {
            let m = other.members[i];
            let ghost before = self.joining_map();
            let ghost q0 = other.members@.subrange(0, i as int);
            let ghost q1 = other.members@.subrange(0, i + 1);
            let ghost s0 = q0.to_set();
            let ghost s_next = q1.to_set();
            proof {
                assert(s_next =~= s0.insert(m)) by {
                    assert forall|x: Member| #[trigger] s_next.contains(x) == (s0.contains(x) || x == m) by {
                        if s_next.contains(x) {
                            let k = choose|k: int| 0 <= k < q1.len() && q1[k] == x;
                            if k < i {
                                assert(q0[k] == x);
                            }
                        }
                        if s0.contains(x) {
                            let k = choose|k: int| 0 <= k < q0.len() && q0[k] == x;
                            assert(q1[k] == x);
                        }
                        if x == m {
                            assert(q1[i as int] == x);
                        }
                    }
                }
            }
            self.add(m, witness);
            proof {
                if pre.seen(m.id) {
                    assert(adopted(pre, s_next, witness) =~= adopted(pre, s0, witness));
                } else {
                    assert(self.members == pre.members);
                    assert(self.joining_map() == witnessed(before, m, witness));
                    assert(witnesses_in(before, m).insert(witness) =~= witnesses_in(pre.joining_map(), m).insert(witness));
                    assert(self.joining_map() =~= adopted(pre, s_next, witness));
                }
            }
            i = i + 1;
        }
        proof {
            assert(other.members@.subrange(0, other.members.len() as int) =~= other.members@);
        }
        let leaving = other.leaving();
        let ghost joined = *self;
        let mut i: usize = 0;
        proof {
            assert(adopted_leaves(pre, leaving@.subrange(0, 0).to_set(), witness) =~= pre.leaving_map());
        }
        while i < leaving.len()
            invariant
                self.wf(),
                i <= leaving.len(),
                self.members == pre.members,
                self.dead == pre.dead,
                self.joining_members == joined.joining_members,
                self.leaving_map() == adopted_leaves(pre, leaving@.subrange(0, i as int).to_set(), witness),
            decreases leaving.len() - i,
        {
            let m = leaving[i];
            let ghost before = self.leaving_map();
            let ghost q0 = leaving@.subrange(0, i as int);
            let ghost q1 = leaving@.subrange(0, i + 1);
            proof {
                assert(q1.to_set() =~= q0.to_set().insert(m)) by {
                    assert forall|x: Member| #[trigger] q1.to_set().contains(x) == (q0.to_set().contains(x) || x == m) by {
                        if q1.contains(x) {
                            let k = choose|k: int| 0 <= k < q1.len() && q1[k] == x;
                            if k < i {
                                assert(q0[k] == x);
                            }
                        }
                        if q0.contains(x) {
                            let k = choose|k: int| 0 <= k < q0.len() && q0[k] == x;
                            assert(q1[k] == x);
                        }
                        if x == m {
                            assert(q1[i as int] == x);
                        }
                    }
                }
            }
            self.remove(m, witness);
            proof {
                if pre.dead@.contains(m.id) {
                    assert(adopted_leaves(pre, q1.to_set(), witness) =~= adopted_leaves(pre, q0.to_set(), witness));
                } else {
                    assert(witnesses_in(before, m).insert(witness) =~= witnesses_in(pre.leaving_map(), m).insert(witness));
                    assert(self.leaving_map() =~= adopted_leaves(pre, q1.to_set(), witness));
                }
            }
            i = i + 1;
        }
        proof {
            assert(leaving@.subrange(0, leaving.len() as int) =~= leaving@);
        }
        self.process_ready_actions(elders);
    }
}

impl Default for StableSet {
    fn default() -> (r: StableSet)
        ensures
            r.wf(),
            r.members@ == Seq::<Member>::empty(),
            r.dead@ == Seq::<Id>::empty(),
            r.joining_map() == Map::<Member, Set<Id>>::empty(),
            r.leaving_map() == Map::<Member, Set<Id>>::empty(),
    {
        StableSet::new()
    }
}

} // verus!
