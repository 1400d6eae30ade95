use vstd::prelude::*;

use crate::assoc::{contains_id, count_witnessed, has_quorum, insert_id};
use crate::node::{build_msg, is_wire_copy, Action};
use crate::stable_set::{
    member_lt, ready, sorted_members, witnesses_in, Member, StableSet,
};
use crate::Id;

verus! {

/// The ids that count toward a quorum, in roster order.
pub type Elders = Vec<Id>;

/// A membership request between nodes.
#[derive(Clone, Copy, Debug, PartialEq, Eq, Hash, PartialOrd, Ord, Structural)]
pub enum Msg {
    /// A node asks to join.
    ReqJoin(Id),
    /// A node asks for a member to leave.
    ReqLeave(Id),
    /// An elder endorses a candidate.
    JoinShare(Member),
}

/// A node's view of the section's membership.
#[derive(Clone, Debug, PartialEq, Eq, Hash)]
pub struct Membership {
    pub stable_set: StableSet,
    /// How many members, first in roster order, are elders.
    pub elder_count: usize,
}

/// The first `elder_count` members of a roster, by id.
pub open spec fn elders_of(members: Seq<Member>, elder_count: usize) -> Seq<Id> {
    let n = if members.len() < elder_count {
        members.len() as int
    } else {
        elder_count as int
    };
    members.subrange(0, n).map_values(|m: Member| m.id)
}

/// The largest rank in a roster; 0 for an empty one.
pub open spec fn max_rank(members: Seq<Member>) -> u64
    decreases members.len(),
{
    if members.len() == 0 {
        0
    } else {
        let r = max_rank(members.drop_last());
        if members.last().ord_idx > r {
            members.last().ord_idx
        } else {
            r
        }
    }
}

/// The member of `s` with id `id`, where there is one.
pub open spec fn member_with_id(s: StableSet, id: Id) -> Member {
    choose|m: Member| s.member_set().contains(m) && m.id == id
}

proof fn lemma_max_rank_sorted(s: Seq<Member>)
    requires
        sorted_members(s),
        s.len() > 0,
    ensures
        max_rank(s) == s.last().ord_idx,
    decreases s.len(),
{
    if s.len() > 1 {
        assert(sorted_members(s.drop_last())) by {
            assert forall|i: int, j: int| 0 <= i < j < s.drop_last().len() implies member_lt(#[trigger] s.drop_last()[i], #[trigger] s.drop_last()[j]) by {
                assert(member_lt(s[i], s[j]));
            }
        }
        lemma_max_rank_sorted(s.drop_last());
        assert(s.drop_last().last() == s[s.len() - 2]);
        assert(member_lt(s[s.len() - 2], s[s.len() - 1]));
    } else {
        assert(max_rank(s.drop_last()) == 0);
    }
}

pub proof fn lemma_count_all(elders: Seq<Id>, w: Set<Id>)
    requires
        forall|i: int| 0 <= i < elders.len() ==> w.contains(#[trigger] elders[i]),
    ensures
        count_witnessed(elders, w) == elders.len(),
    decreases elders.len(),
{
    if elders.len() > 0 {
        lemma_count_all(elders.drop_last(), w);
    }
}

impl Membership {
    pub open spec fn wf(&self) -> bool {
        self.stable_set.wf()
    }

    /// A membership whose roster is the genesis nodes, each with rank 0, and whose
    /// first `elder_count` members are elders.
    pub fn new(genesis: &Vec<Id>, elder_count: usize) -> (r: Membership)
        requires
            genesis@.no_duplicates(),
        ensures
            r.wf(),
            r.elder_count == elder_count,
            r.stable_set.member_set() == genesis@.to_set().map(|g: Id| Member { ord_idx: 0, id: g }),
            r.stable_set.dead@ == Seq::<Id>::empty(),
            r.stable_set.joining_map() == Map::<Member, Set<Id>>::empty(),
            r.stable_set.leaving_map() == Map::<Member, Set<Id>>::empty(),
    {
        let mut stable_set = StableSet::new();
        let ghost gs = genesis@.to_set();
        let mut i: usize = 0;
        while i < genesis.len()
            invariant
                i <= genesis.len(),
                genesis@.no_duplicates(),
                gs == genesis@.to_set(),
                stable_set.wf(),
                stable_set.members@ == Seq::<Member>::empty(),
                stable_set.dead@ == Seq::<Id>::empty(),
                stable_set.leaving_map() == Map::<Member, Set<Id>>::empty(),
                stable_set.joining_map() == Map::new(
                    |m: Member| m.ord_idx == 0 && genesis@.subrange(0, i as int).contains(m.id),
                    |m: Member| gs,
                ),
            decreases genesis.len() - i,
        {
            let member = Member { id: genesis[i], ord_idx: 0 };
            let ghost before = stable_set.joining_map();
            let mut j: usize = 0;
            while j < genesis.len()
                invariant
                    i < genesis.len(),
                    j <= genesis.len(),
                    member == (Member { id: genesis@[i as int], ord_idx: 0 }),
                    genesis@.no_duplicates(),
                    gs == genesis@.to_set(),
                    before == Map::new(
                        |m: Member| m.ord_idx == 0 && genesis@.subrange(0, i as int).contains(m.id),
                        |m: Member| gs,
                    ),
                    stable_set.wf(),
                    stable_set.members@ == Seq::<Member>::empty(),
                    stable_set.dead@ == Seq::<Id>::empty(),
                    stable_set.leaving_map() == Map::<Member, Set<Id>>::empty(),
                    j > 0 ==> stable_set.joining_map() == before.insert(member, genesis@.subrange(0, j as int).to_set()),
                    j == 0 ==> stable_set.joining_map() == before,
                decreases genesis.len() - j,
            {
                let ghost b2 = stable_set.joining_map();
                stable_set.add(member, genesis[j]);
                proof {
                    assert(!stable_set.seen(member.id));
                    assert(genesis@.subrange(0, j + 1).to_set() =~= witnesses_in(b2, member).insert(genesis@[j as int])) by {
                        if j > 0 {
                            assert(witnesses_in(b2, member) == genesis@.subrange(0, j as int).to_set());
                        } else {
                            assert(!before.contains_key(member)) by {
                                if before.contains_key(member) {
                                    let q = genesis@.subrange(0, i as int);
                                    let k = choose|k: int| 0 <= k < q.len() && q[k] == member.id;
                                    assert(genesis@[k] == genesis@[i as int]);
                                }
                            }
                            assert(witnesses_in(b2, member) == Set::<Id>::empty());
                        }
                        assert forall|x: Id| #[trigger] genesis@.subrange(0, j + 1).to_set().contains(x) == (genesis@.subrange(0, j as int).to_set().contains(x) || x == genesis@[j as int]) by {
                            let q0 = genesis@.subrange(0, j as int);
                            let q1 = genesis@.subrange(0, j + 1);
                            if q1.contains(x) {
                                let k = choose|k: int| 0 <= k < q1.len() && q1[k] == x;
                                if k < j {
                                    assert(q0[k] == x);
                                }
                            }
                            if q0.contains(x) {
                                let k = choose|k: int| 0 <= k < q0.len() && q0[k] == x;
                                assert(q1[k] == x);
                            }
                            if x == genesis@[j as int] {
                                assert(q1[j as int] == x);
                            }
                        }
                    }
                    assert(stable_set.joining_map() =~= before.insert(member, genesis@.subrange(0, j + 1).to_set()));
                }
                j = j + 1;
            }
            proof {
                assert(genesis@.subrange(0, genesis.len() as int) =~= genesis@);
                assert forall|x: Id| #[trigger] genesis@.subrange(0, i + 1).contains(x) == (genesis@.subrange(0, i as int).contains(x) || x == genesis@[i as int]) by {
                    let q0 = genesis@.subrange(0, i as int);
                    let q1 = genesis@.subrange(0, i + 1);
                    if q1.contains(x) {
                        let k = choose|k: int| 0 <= k < q1.len() && q1[k] == x;
                        if k < i {
                            assert(q0[k] == x);
                        }
                    }
                    if q0.contains(x) {
                        let k = choose|k: int| 0 <= k < q0.len() && q0[k] == x;
                        assert(q1[k] == x);
                    }
                    if x == genesis@[i as int] {
                        assert(q1[i as int] == x);
                    }
                }
                assert(stable_set.joining_map() =~= Map::new(
                    |m: Member| m.ord_idx == 0 && genesis@.subrange(0, i + 1).contains(m.id),
                    |m: Member| gs,
                ));
            }
            i = i + 1;
        }
        let ghost pre = stable_set;
        proof {
            assert(genesis@.subrange(0, genesis.len() as int) =~= genesis@);
            assert forall|k: int| 0 <= k < genesis@.len() implies gs.contains(#[trigger] genesis@[k]) by {}
            lemma_count_all(genesis@, gs);
        }
        stable_set.process_ready_actions(genesis);
        proof {
            let target = gs.map(|g: Id| Member { ord_idx: 0, id: g });
            assert forall|m: Member| pre.joining_map().contains_key(m) implies has_quorum(pre.joining_map()[m], genesis@) by {
                assert(genesis@.contains(m.id));
            }
            assert forall|m: Member| #[trigger] stable_set.member_set().contains(m) == target.contains(m) by {
                if target.contains(m) {
                    let g = choose|g: Id| gs.contains(g) && Member { ord_idx: 0, id: g } == m;
                    assert(pre.joining_map().contains_key(m));
                }
                if stable_set.member_set().contains(m) {
                    assert(pre.joining_map().contains_key(m));
                    assert(gs.contains(m.id));
                }
            }
            assert(stable_set.member_set() =~= target);
            assert(stable_set.dead_set() =~= Set::<Id>::empty());
            if stable_set.dead@.len() > 0 {
                assert(stable_set.dead_set().contains(stable_set.dead@[0]));
            }
            assert(stable_set.dead@ =~= Seq::<Id>::empty());
            assert forall|m: Member| #[trigger] pre.joining_map().contains_key(m) implies ready(pre.joining_map(), genesis@).contains(m) by {
                assert(genesis@.contains(m.id));
            }
            assert(stable_set.joining_map() =~= Map::<Member, Set<Id>>::empty());
            assert(stable_set.leaving_map() =~= Map::<Member, Set<Id>>::empty());
        }
        Membership { stable_set, elder_count }
    }
}

/// The tally after `a` and then `b` witness every member of `picked`.
pub open spec fn shared(t: Map<Member, Set<Id>>, picked: Set<Member>, a: Id, b: Id) -> Map<
    Member,
    Set<Id>,
> {
    Map::new(
        |m: Member| t.contains_key(m) || picked.contains(m),
        |m: Member|
            if picked.contains(m) {
                witnesses_in(t, m).insert(a).insert(b)
            } else {
                t[m]
            },
    )
}

/// Ids of the members of `picked` that had no witness yet in `t`.
pub open spec fn fresh_ids(t: Map<Member, Set<Id>>, picked: Set<Member>) -> Set<Id> {
    picked.filter(|m: Member| witnesses_in(t, m) == Set::<Id>::empty()).map(|m: Member| m.id)
}

/// The ids of a roster but one, in roster order.
pub open spec fn ids_except(members: Seq<Member>, id: Id) -> Seq<Id>
    decreases members.len(),
{
    if members.len() == 0 {
        Seq::empty()
    } else if members.last().id == id {
        ids_except(members.drop_last(), id)
    } else {
        ids_except(members.drop_last(), id).push(members.last().id)
    }
}

proof fn lemma_empty_vec_set(v: Seq<Id>)
    ensures
        (v.len() == 0) == (v.to_set() == Set::<Id>::empty()),
{
    if v.len() > 0 {
        assert(v.to_set().contains(v[0]));
    } else {
        assert(v.to_set() =~= Set::<Id>::empty());
    }
}

proof fn lemma_prefix_set<A>(s: Seq<A>, i: int)
    requires
        0 <= i < s.len(),
    ensures
        s.subrange(0, i + 1).to_set() == s.subrange(0, i).to_set().insert(s[i]),
{
    let q0 = s.subrange(0, i);
    let q1 = s.subrange(0, i + 1);
    assert forall|x: A| #[trigger] q1.to_set().contains(x) == q0.to_set().insert(s[i]).contains(x) by {
        if q1.contains(x) {
            let k = choose|k: int| 0 <= k < q1.len() && q1[k] == x;
            if k < i {
                assert(q0[k] == x);
            }
        }
        if q0.contains(x) {
            let k = choose|k: int| 0 <= k < q0.len() && q0[k] == x;
            assert(q1[k] == x);
        }
        if x == s[i] {
            assert(q1[i] == x);
        }
    }
    assert(q1.to_set() =~= q0.to_set().insert(s[i]));
}

proof fn lemma_fresh_insert(t: Map<Member, Set<Id>>, p: Set<Member>, m: Member)
    ensures
        fresh_ids(t, p.insert(m)) == if witnesses_in(t, m) == Set::<Id>::empty() {
            fresh_ids(t, p).insert(m.id)
        } else {
            fresh_ids(t, p)
        },
{
    let f = |y: Member| witnesses_in(t, y) == Set::<Id>::empty();
    let a = fresh_ids(t, p.insert(m));
    let b = if f(m) { fresh_ids(t, p).insert(m.id) } else { fresh_ids(t, p) };
    assert forall|x: Id| #[trigger] a.contains(x) == b.contains(x) by {
        if a.contains(x) {
            let y = choose|y: Member| p.insert(m).filter(f).contains(y) && y.id == x;
            if y != m {
                assert(p.filter(f).contains(y));
            }
        }
        if b.contains(x) {
            if f(m) && x == m.id {
                assert(p.insert(m).filter(f).contains(m));
            } else {
                let y = choose|y: Member| p.filter(f).contains(y) && y.id == x;
                assert(p.insert(m).filter(f).contains(y));
            }
        }
    }
    assert(a =~= b);
}

proof fn lemma_shared_twice(t: Map<Member, Set<Id>>, a: Set<Member>, b: Set<Member>, x: Id, y: Id)
    ensures
        shared(shared(t, a, x, y), b, x, y) == shared(t, a.union(b), x, y),
        fresh_ids(t, a).union(fresh_ids(shared(t, a, x, y), b)) == fresh_ids(t, a.union(b)),
{
    let t1 = shared(t, a, x, y);
    assert forall|m: Member| #[trigger] witnesses_in(t1, m) == if a.contains(m) {
        witnesses_in(t, m).insert(x).insert(y)
    } else {
        witnesses_in(t, m)
    } by {}
    assert forall|m: Member| a.contains(m) && b.contains(m) implies #[trigger] witnesses_in(t, m).insert(x).insert(y).insert(x).insert(y) =~= witnesses_in(t, m).insert(x).insert(y) by {}
    assert(shared(t1, b, x, y) =~= shared(t, a.union(b), x, y));
    let f = |m: Member| witnesses_in(t, m) == Set::<Id>::empty();
    let f1 = |m: Member| witnesses_in(t1, m) == Set::<Id>::empty();
    let l = fresh_ids(t, a).union(fresh_ids(t1, b));
    let r = fresh_ids(t, a.union(b));
    assert forall|i: Id| #[trigger] l.contains(i) == r.contains(i) by {
        if fresh_ids(t, a).contains(i) {
            let m = choose|m: Member| a.filter(f).contains(m) && m.id == i;
            assert(a.union(b).filter(f).contains(m));
        }
        if fresh_ids(t1, b).contains(i) {
            let m = choose|m: Member| b.filter(f1).contains(m) && m.id == i;
            if a.contains(m) {
                assert(witnesses_in(t1, m).contains(y));
            }
            assert(a.union(b).filter(f).contains(m));
        }
        if r.contains(i) {
            let m = choose|m: Member| a.union(b).filter(f).contains(m) && m.id == i;
            if a.contains(m) {
                assert(a.filter(f).contains(m));
            } else {
                assert(b.filter(f1).contains(m));
            }
        }
    }
    assert(l =~= r);
}

impl Membership {
    /// `witness` and this node `id` endorse the join of `member`. True when the
    /// join had no witness before.
    fn handle_join_share(&mut self, id: Id, member: Member, witness: Id) -> (r: bool)
        requires
            old(self).wf(),
        ensures
            final(self).wf(),
            final(self).elder_count == old(self).elder_count,
            final(self).stable_set.members == old(self).stable_set.members,
            final(self).stable_set.dead == old(self).stable_set.dead,
            final(self).stable_set.leaving_members == old(self).stable_set.leaving_members,
            final(self).stable_set.joining_map() == if old(self).stable_set.seen(member.id) {
                old(self).stable_set.joining_map()
            } else {
                shared(old(self).stable_set.joining_map(), set![member], witness, id)
            },
            r == (!old(self).stable_set.seen(member.id) && witnesses_in(
                old(self).stable_set.joining_map(),
                member,
            ) == Set::<Id>::empty()),
    {
        let ghost t = self.stable_set.joining_map();
        let ws = self.stable_set.witnesses(&member);
        proof {
            lemma_empty_vec_set(ws@);
        }
        let mut first = ws.len() == 0;
        let added = self.stable_set.add(member, witness);
        first = first && added;
        self.stable_set.add(member, id);
        proof {
            if !old(self).stable_set.seen(member.id) {
                assert(self.stable_set.joining_map() =~= shared(t, set![member], witness, id));
            }
        }
        first
    }

    /// `witness` and this node `id` endorse the leave of `member`. True when the
    /// leave had no witness before.
    fn handle_leave_share(&mut self, id: Id, member: Member, witness: Id) -> (r: bool)
        requires
            old(self).wf(),
        ensures
            final(self).wf(),
            final(self).elder_count == old(self).elder_count,
            final(self).stable_set.members == old(self).stable_set.members,
            final(self).stable_set.dead == old(self).stable_set.dead,
            final(self).stable_set.joining_members == old(self).stable_set.joining_members,
            final(self).stable_set.leaving_map() == if old(self).stable_set.dead@.contains(
                member.id,
            ) {
                old(self).stable_set.leaving_map()
            } else {
                shared(old(self).stable_set.leaving_map(), set![member], witness, id)
            },
            r == (!old(self).stable_set.dead@.contains(member.id) && witnesses_in(
                old(self).stable_set.leaving_map(),
                member,
            ) == Set::<Id>::empty()),
    {
        let ghost t = self.stable_set.leaving_map();
        let ws = self.stable_set.leaving_witnesses(&member);
        proof {
            lemma_empty_vec_set(ws@);
        }
        let mut first = ws.len() == 0;
        let added = self.stable_set.remove(member, witness);
        first = first && added;
        self.stable_set.remove(member, id);
        proof {
            if !old(self).stable_set.dead@.contains(member.id) {
                assert(self.stable_set.leaving_map() =~= shared(t, set![member], witness, id));
            }
        }
        first
    }

    /// Join shares witnessed by `src` for each of `ms`; the ids seen for the first time go to `sync`.
    fn share_joins(&mut self, ms: &Vec<Member>, src: Id, sync: &mut Vec<Id>)
        requires
            old(self).wf(),
            old(sync)@.no_duplicates(),
        ensures
            final(self).wf(),
            final(self).elder_count == old(self).elder_count,
            final(self).stable_set.members == old(self).stable_set.members,
            final(self).stable_set.dead == old(self).stable_set.dead,
            final(self).stable_set.leaving_members == old(self).stable_set.leaving_members,
            final(self).stable_set.joining_map() == shared(
                old(self).stable_set.joining_map(),
                ms@.to_set().filter(|m: Member| !old(self).stable_set.seen(m.id)),
                src,
                src,
            ),
            final(sync)@.no_duplicates(),
            final(sync)@.to_set() == old(sync)@.to_set().union(
                fresh_ids(
                    old(self).stable_set.joining_map(),
                    ms@.to_set().filter(|m: Member| !old(self).stable_set.seen(m.id)),
                ),
            ),
    {
        let ghost pre = self.stable_set;
        let ghost t0 = pre.joining_map();
        let ghost s0 = sync@.to_set();
        let mut i: usize = 0;
        proof {
            assert(ms@.subrange(0, 0).to_set().filter(|m: Member| !pre.seen(m.id)) =~= Set::<Member>::empty());
            assert(shared(t0, Set::<Member>::empty(), src, src) =~= t0);
            assert(fresh_ids(t0, Set::<Member>::empty()) =~= Set::<Id>::empty());
            assert(s0.union(Set::<Id>::empty()) =~= s0);
        }
        while i < ms.len()
            invariant
                i <= ms.len(),
                self.wf(),
                self.elder_count == old(self).elder_count,
                self.stable_set.members == pre.members,
                self.stable_set.dead == pre.dead,
                self.stable_set.leaving_members == pre.leaving_members,
                self.stable_set.joining_map() == shared(
                    t0,
                    ms@.subrange(0, i as int).to_set().filter(|m: Member| !pre.seen(m.id)),
                    src,
                    src,
                ),
                sync@.no_duplicates(),
                sync@.to_set() == s0.union(
                    fresh_ids(t0, ms@.subrange(0, i as int).to_set().filter(|m: Member| !pre.seen(m.id))),
                ),
            decreases ms.len() - i,
        {
            let m = ms[i];
            let ghost p0 = ms@.subrange(0, i as int).to_set().filter(|m: Member| !pre.seen(m.id));
            let ghost p_next = ms@.subrange(0, i + 1).to_set().filter(|m: Member| !pre.seen(m.id));
            proof {
                lemma_prefix_set(ms@, i as int);
                if pre.seen(m.id) {
                    assert(p_next =~= p0);
                } else {
                    assert(p_next =~= p0.insert(m));
                }
            }
            let ghost tj = self.stable_set.joining_map();
            let ghost sy = sync@.to_set();
            if self.handle_join_share(src, m, src) {
                insert_id(sync, m.id);
            }
            proof {
                if !pre.seen(m.id) {
                    assert(witnesses_in(tj, m) == if p0.contains(m) { witnesses_in(t0, m).insert(src).insert(src) } else { witnesses_in(t0, m) });
                    assert(witnesses_in(tj, m).insert(src).insert(src) =~= witnesses_in(t0, m).insert(src).insert(src));
                    assert(self.stable_set.joining_map() =~= shared(t0, p_next, src, src));
                    if p0.contains(m) {
                        assert(witnesses_in(tj, m) != Set::<Id>::empty()) by {
                            assert(witnesses_in(tj, m).contains(src));
                        }
                    }
                    lemma_fresh_insert(t0, p0, m);
                    assert(sync@.to_set() =~= s0.union(fresh_ids(t0, p_next))) by {
                        if p0.contains(m) && witnesses_in(t0, m) == Set::<Id>::empty() {
                            assert(p0.filter(|m: Member| witnesses_in(t0, m) == Set::<Id>::empty()).contains(m));
                            assert(fresh_ids(t0, p0).contains(m.id));
                        }
                    }
                }
            }
            i = i + 1;
        }
        proof {
            assert(ms@.subrange(0, ms.len() as int) =~= ms@);
        }
    }

    /// Leave shares from `src` for each of `ms`; the ids seen leaving for the first time go to `sync`.
    fn share_leaves(&mut self, ms: &Vec<Member>, id: Id, src: Id, sync: &mut Vec<Id>)
        requires
            old(self).wf(),
            old(sync)@.no_duplicates(),
        ensures
            final(self).wf(),
            final(self).elder_count == old(self).elder_count,
            final(self).stable_set.members == old(self).stable_set.members,
            final(self).stable_set.dead == old(self).stable_set.dead,
            final(self).stable_set.joining_members == old(self).stable_set.joining_members,
            final(self).stable_set.leaving_map() == shared(
                old(self).stable_set.leaving_map(),
                ms@.to_set().filter(|m: Member| !old(self).stable_set.dead@.contains(m.id)),
                src,
                id,
            ),
            final(sync)@.no_duplicates(),
            final(sync)@.to_set() == old(sync)@.to_set().union(
                fresh_ids(
                    old(self).stable_set.leaving_map(),
                    ms@.to_set().filter(|m: Member| !old(self).stable_set.dead@.contains(m.id)),
                ),
            ),
    {
        let ghost pre = self.stable_set;
        let ghost t0 = pre.leaving_map();
        let ghost s0 = sync@.to_set();
        let mut i: usize = 0;
        proof {
            assert(ms@.subrange(0, 0).to_set().filter(|m: Member| !pre.dead@.contains(m.id)) =~= Set::<Member>::empty());
            assert(shared(t0, Set::<Member>::empty(), src, id) =~= t0);
            assert(fresh_ids(t0, Set::<Member>::empty()) =~= Set::<Id>::empty());
            assert(s0.union(Set::<Id>::empty()) =~= s0);
        }
        while i < ms.len()
            invariant
                i <= ms.len(),
                self.wf(),
                self.elder_count == old(self).elder_count,
                self.stable_set.members == pre.members,
                self.stable_set.dead == pre.dead,
                self.stable_set.joining_members == pre.joining_members,
                self.stable_set.leaving_map() == shared(
                    t0,
                    ms@.subrange(0, i as int).to_set().filter(|m: Member| !pre.dead@.contains(m.id)),
                    src,
                    id,
                ),
                sync@.no_duplicates(),
                sync@.to_set() == s0.union(
                    fresh_ids(t0, ms@.subrange(0, i as int).to_set().filter(|m: Member| !pre.dead@.contains(m.id))),
                ),
            decreases ms.len() - i,
        {
            let m = ms[i];
            let ghost p0 = ms@.subrange(0, i as int).to_set().filter(|m: Member| !pre.dead@.contains(m.id));
            let ghost p_next = ms@.subrange(0, i + 1).to_set().filter(|m: Member| !pre.dead@.contains(m.id));
            proof {
                lemma_prefix_set(ms@, i as int);
                if pre.dead@.contains(m.id) {
                    assert(p_next =~= p0);
                } else {
                    assert(p_next =~= p0.insert(m));
                }
            }
            let ghost tj = self.stable_set.leaving_map();
            if self.handle_leave_share(id, m, src) {
                insert_id(sync, m.id);
            }
            proof {
                if !pre.dead@.contains(m.id) {
                    assert(witnesses_in(tj, m) == if p0.contains(m) { witnesses_in(t0, m).insert(src).insert(id) } else { witnesses_in(t0, m) });
                    assert(witnesses_in(tj, m).insert(src).insert(id) =~= witnesses_in(t0, m).insert(src).insert(id));
                    assert(self.stable_set.leaving_map() =~= shared(t0, p_next, src, id));
                    if p0.contains(m) {
                        assert(witnesses_in(tj, m) != Set::<Id>::empty()) by {
                            assert(witnesses_in(tj, m).contains(id));
                        }
                    }
                    lemma_fresh_insert(t0, p0, m);
                    assert(sync@.to_set() =~= s0.union(fresh_ids(t0, p_next))) by {
                        if p0.contains(m) && witnesses_in(t0, m) == Set::<Id>::empty() {
                            assert(p0.filter(|m: Member| witnesses_in(t0, m) == Set::<Id>::empty()).contains(m));
                            assert(fresh_ids(t0, p0).contains(m.id));
                        }
                    }
                }
            }
            i = i + 1;
        }
        proof {
            assert(ms@.subrange(0, ms.len() as int) =~= ms@);
        }
    }
}

impl Membership {
    /// Takes in the stable set that `src` sent: its members and candidates are
    /// join shares witnessed by `src`, its leaving members are leave shares from
    /// `src` and this node `id`, and each member this node sees leaving that `src`
    /// no longer lists is a leave share from `src`. Returns the ids met for the first time, which are behind.
    pub fn merge(&mut self, stable_set: StableSet, id: Id, src: Id) -> (r: Vec<Id>)
        requires
            old(self).wf(),
        ensures
            final(self).wf(),
            final(self).elder_count == old(self).elder_count,
            merge_step(old(self).stable_set, final(self).stable_set, stable_set, id, src),
            r@.no_duplicates(),
            r@.to_set() == merge_fresh(old(self).stable_set, stable_set, id, src),
    {
        let ghost pre = self.stable_set;
        let mut sync: Vec<Id> = Vec::new();
        let incoming_members = stable_set.members();
        self.share_joins(&incoming_members, src, &mut sync);
        let incoming_joining = stable_set.joining();
        let ghost j_next = self.stable_set.joining_map();
        let ghost mid = self.stable_set;
        let ghost s_next = sync@.to_set();
        self.share_joins(&incoming_joining, src, &mut sync);
        let ghost s_after = sync@.to_set();
        let incoming_leaving = stable_set.leaving();
        self.share_leaves(&incoming_leaving, id, src, &mut sync);
        let ghost s_last = sync@.to_set();
        let local_leaving = self.stable_set.leaving();
        let mut to_handle: Vec<Member> = Vec::new();
        let mut i: usize = 0;
        proof {
            assert(to_handle@.to_set() =~= local_leaving@.subrange(0, 0).to_set().filter(|x: Member| !stable_set.member_set().contains(x)));
        }
        while i < local_leaving.len()
            invariant
                i <= local_leaving.len(),
                to_handle@.to_set() == local_leaving@.subrange(0, i as int).to_set().filter(|x: Member| !stable_set.member_set().contains(x)),
            decreases local_leaving.len() - i,
        {
            let m = local_leaving[i];
            let ghost th0 = to_handle@;
            proof {
                lemma_prefix_set(local_leaving@, i as int);
            }
            if !stable_set.has_member(&m) {
                to_handle.push(m);
                proof {
                    lemma_prefix_set(to_handle@, th0.len() as int);
                    assert(to_handle@.subrange(0, th0.len() as int) =~= th0);
                    assert(to_handle@.subrange(0, to_handle@.len() as int) =~= to_handle@);
                }
            }
            proof {
                assert(to_handle@.to_set() =~= local_leaving@.subrange(0, i + 1).to_set().filter(|x: Member| !stable_set.member_set().contains(x)));
            }
            i = i + 1;
        }
        proof {
            assert(local_leaving@.subrange(0, local_leaving@.len() as int) =~= local_leaving@);
        }
        self.share_leaves(&to_handle, src, src, &mut sync);
        proof {
            let seen_f = |m: Member| !pre.seen(m.id);
            let a = incoming_members@.to_set().filter(seen_f);
            let b = incoming_joining@.to_set().filter(seen_f);
            lemma_shared_twice(pre.joining_map(), a, b, src, src);
            assert(a.union(b) =~= join_picks(pre, stable_set));
            assert(incoming_leaving@.to_set().filter(|m: Member| !pre.dead@.contains(m.id)) =~= leave_picks(pre, stable_set));
            assert(to_handle@.to_set().filter(|m: Member| !pre.dead@.contains(m.id)) =~= leave_backfill(pre, stable_set, id, src));
            assert(Seq::<Id>::empty().to_set() =~= Set::<Id>::empty());
            assert(Set::<Id>::empty().union(fresh_ids(pre.joining_map(), a)) =~= fresh_ids(pre.joining_map(), a));
            assert(incoming_joining@.to_set().filter(|m: Member| !mid.seen(m.id)) =~= b);
            assert(s_next == fresh_ids(pre.joining_map(), a));
            assert(s_after == fresh_ids(pre.joining_map(), a).union(fresh_ids(j_next, b)));
            assert(sync@.to_set() =~= fresh_ids(pre.joining_map(), join_picks(pre, stable_set)).union(
                fresh_ids(pre.leaving_map(), leave_picks(pre, stable_set))).union(
                fresh_ids(leaves_taken(pre, stable_set, id, src), leave_backfill(pre, stable_set, id, src))));
        }
        sync
    }
}

/// The candidate an elder makes of a node asking to join `s`: the next rank after the largest.
pub open spec fn next_candidate(s: StableSet, candidate: Id) -> Member {
    Member { ord_idx: (max_rank(s.members@) + 1) as u64, id: candidate }
}

/// An elder `id` takes up a join request of `candidate`: it has not seen the id,
/// and a rank is left to give.
pub open spec fn takes_join(s: StableSet, elders: Seq<Id>, id: Id, candidate: Id) -> bool {
    !s.seen(candidate) && elders.contains(id) && max_rank(s.members@) < u64::MAX
}

impl Membership {
    /// A join request of node `id`, carrying this node's stable set.
    pub fn req_join(&self, id: Id) -> (r: crate::node::Msg)
        requires
            self.wf(),
        ensures
            is_wire_copy(r.stable_set, self.stable_set),
            r.action == Action::Membership(Msg::ReqJoin(id)),
    {
        build_msg(self, Action::Membership(Msg::ReqJoin(id)))
    }

    /// Node `id` endorses its own leave, where it is a member, and asks the
    /// section to let it go.
    pub fn req_leave(&mut self, id: Id) -> (r: crate::node::Msg)
        requires
            old(self).wf(),
        ensures
            final(self).wf(),
            final(self).elder_count == old(self).elder_count,
            leave_step(old(self).stable_set, final(self).stable_set, id),
            is_wire_copy(r.stable_set, final(self).stable_set),
            r.action == Action::Membership(Msg::ReqLeave(id)),
    {
        if let Some(member) = self.stable_set.member_by_id(id) {
            proof {
                self.lemma_member_with_id(member);
            }
            self.handle_leave_share(id, member, id);
        }
        build_msg(self, Action::Membership(Msg::ReqLeave(id)))
    }

    /// The member with an id is the one that `member_with_id` names.
    proof fn lemma_member_with_id(&self, m: Member)
        requires
            self.wf(),
            self.stable_set.member_set().contains(m),
        ensures
            member_with_id(self.stable_set, m.id) == m,
            !self.stable_set.dead@.contains(m.id),
    {
        crate::stable_set::lemma_one_per_id(self.stable_set.members@);
        let k = choose|k: int| 0 <= k < self.stable_set.members@.len() && self.stable_set.members@[k] == m;
        assert(!self.stable_set.dead@.contains(self.stable_set.members@[k].id));
    }

    pub fn is_member(&self, id: Id) -> (r: bool)
        ensures
            r == self.stable_set.is_member_id(id),
    {
        self.stable_set.contains(id)
    }

    /// The committed members, in roster order.
    pub fn members(&self) -> (r: Vec<Member>)
        ensures
            r@ == self.stable_set.members@,
    {
        self.stable_set.members()
    }

    /// The ids of the first `elder_count` members in roster order.
    pub fn elders(&self) -> (r: Elders)
        ensures
            r@ == elders_of(self.stable_set.members@, self.elder_count),
    {
        let ms = &self.stable_set.members;
        let n: usize = if ms.len() < self.elder_count {
            ms.len()
        } else {
            self.elder_count
        };
        let mut r: Vec<Id> = Vec::new();
        let mut i: usize = 0;
        while i < n
            invariant
                n <= ms.len(),
                n == if ms.len() < self.elder_count { ms.len() } else { self.elder_count },
                i <= n,
                r@ == ms@.subrange(0, i as int).map_values(|m: Member| m.id),
            decreases n - i,
        {
            r.push(ms[i].id);
            i = i + 1;
            proof {
                assert(r@ =~= ms@.subrange(0, i as int).map_values(|m: Member| m.id));
            }
        }
        r
    }

    /// Handles a membership request from `src` at node `id`, judged against the
    /// elders this node saw before the message. Returns the ids met for the first time.
    pub fn on_msg(&mut self, elders: &Vec<Id>, id: Id, src: Id, msg: Msg) -> (r: Vec<Id>)
        requires
            old(self).wf(),
        ensures
            final(self).wf(),
            final(self).elder_count == old(self).elder_count,
            request_step(old(self).stable_set, final(self).stable_set, elders@, id, src, msg),
            r@ == request_fresh(old(self).stable_set, elders@, id, msg),
    {
        let mut sync: Vec<Id> = Vec::new();
        match msg {
            Msg::ReqJoin(candidate_id) => {
                if !self.stable_set.has_seen(candidate_id) && contains_id(elders, id) {
                    let n = self.stable_set.members.len();
                    let latest: u64 = if n == 0 {
                        0
                    } else {
                        self.stable_set.members[n - 1].ord_idx
                    };
                    proof {
                        if n > 0 {
                            lemma_max_rank_sorted(self.stable_set.members@);
                        }
                    }
                    if latest < u64::MAX {
                        let member = Member { id: candidate_id, ord_idx: latest + 1 };
                        if self.handle_join_share(id, member, id) {
                            sync.push(candidate_id);
                        }
                    }
                }
            },
            Msg::ReqLeave(to_remove) => {
                if let Some(member) = self.stable_set.member_by_id(to_remove) {
                    proof {
                        self.lemma_member_with_id(member);
                    }
                    if self.handle_leave_share(id, member, src) {
                        sync.push(to_remove);
                    }
                }
            },
            Msg::JoinShare(member) => {
                let m_id = member.id;
                if self.handle_join_share(id, member, src) {
                    sync.push(m_id);
                }
            },
        }
        proof {
            assert(sync@ =~= seq![] || sync@ =~= seq![sync@[0]]);
        }
        sync
    }

    /// Commits what is ready under the current elders. Where anything changed and
    /// this node `id` is an elder, returns every other member's id, to be synced.
    pub fn process_pending_actions(&mut self, id: Id) -> (r: Vec<Id>)
        requires
            old(self).wf(),
        ensures
            final(self).wf(),
            final(self).elder_count == old(self).elder_count,
            commit_step(
                old(self).stable_set,
                final(self).stable_set,
                elders_of(old(self).stable_set.members@, old(self).elder_count),
            ),
            r@ == if commit_changes(
                old(self).stable_set,
                elders_of(old(self).stable_set.members@, old(self).elder_count),
            ) && elders_of(old(self).stable_set.members@, old(self).elder_count).contains(id) {
                ids_except(final(self).stable_set.members@, id)
            } else {
                Seq::<Id>::empty()
            },
    {
        let elders = self.elders();
        let changed = self.stable_set.process_ready_actions(&elders);
        if changed && contains_id(&elders, id) {
            let ms = &self.stable_set.members;
            let mut r: Vec<Id> = Vec::new();
            let mut i: usize = 0;
            while i < ms.len()
                invariant
                    i <= ms.len(),
                    r@ == ids_except(ms@.subrange(0, i as int), id),
                decreases ms.len() - i,
            {
                proof {
                    assert(ms@.subrange(0, i + 1).drop_last() =~= ms@.subrange(0, i as int));
                }
                if ms[i].id != id {
                    r.push(ms[i].id);
                }
                i = i + 1;
            }
            proof {
                assert(ms@.subrange(0, ms.len() as int) =~= ms@);
            }
            r
        } else {
            Vec::new()
        }
    }
}

/// The ids that a merge of `incoming` from `src` at node `id` meets for the first time.
pub open spec fn merge_fresh(local: StableSet, incoming: StableSet, id: Id, src: Id) -> Set<Id> {
    fresh_ids(local.joining_map(), join_picks(local, incoming)).union(
        fresh_ids(local.leaving_map(), leave_picks(local, incoming)),
    ).union(
        fresh_ids(leaves_taken(local, incoming, id, src), leave_backfill(local, incoming, id, src)),
    )
}

/// The ids that node `id` meets for the first time handling `msg`.
pub open spec fn request_fresh(s: StableSet, elders: Seq<Id>, id: Id, msg: Msg) -> Seq<Id> {
    match msg {
        Msg::ReqJoin(c) => if takes_join(s, elders, id, c) && witnesses_in(
            s.joining_map(),
            next_candidate(s, c),
        ) == Set::<Id>::empty() {
            seq![c]
        } else {
            Seq::<Id>::empty()
        },
        Msg::ReqLeave(x) => if s.is_member_id(x) && witnesses_in(
            s.leaving_map(),
            member_with_id(s, x),
        ) == Set::<Id>::empty() {
            seq![x]
        } else {
            Seq::<Id>::empty()
        },
        Msg::JoinShare(m) => if !s.seen(m.id) && witnesses_in(s.joining_map(), m) == Set::<
            Id,
        >::empty() {
            seq![m.id]
        } else {
            Seq::<Id>::empty()
        },
    }
}

/// `after` is `before` once node `id` has merged the stable set `incoming` that `src` sent.
pub open spec fn merge_step(before: StableSet, after: StableSet, incoming: StableSet, id: Id, src: Id) -> bool {
    &&& after.wf()
    &&& after.members == before.members
    &&& after.dead == before.dead
    &&& after.joining_map() == shared(before.joining_map(), join_picks(before, incoming), src, src)
    &&& after.leaving_map() == shared(
        leaves_taken(before, incoming, id, src),
        leave_backfill(before, incoming, id, src),
        src,
        src,
    )
}

/// `after` is `before` once node `id` has endorsed its own leave, where it is a member.
pub open spec fn leave_step(before: StableSet, after: StableSet, id: Id) -> bool {
    &&& after.wf()
    &&& after.members == before.members
    &&& after.dead == before.dead
    &&& after.joining_members == before.joining_members
    &&& after.leaving_map() == if before.is_member_id(id) {
        shared(before.leaving_map(), set![member_with_id(before, id)], id, id)
    } else {
        before.leaving_map()
    }
}

/// `after` is `before` once node `id` has handled the request `msg` from `src`,
/// judged against `elders`.
pub open spec fn request_step(
    before: StableSet,
    after: StableSet,
    elders: Seq<Id>,
    id: Id,
    src: Id,
    msg: Msg,
) -> bool {
    &&& after.wf()
    &&& after.members == before.members
    &&& after.dead == before.dead
    &&& match msg {
        Msg::ReqJoin(c) => {
            &&& after.leaving_members == before.leaving_members
            &&& after.joining_map() == if takes_join(before, elders, id, c) {
                shared(before.joining_map(), set![next_candidate(before, c)], id, id)
            } else {
                before.joining_map()
            }
        },
        Msg::ReqLeave(x) => {
            &&& after.joining_members == before.joining_members
            &&& after.leaving_map() == if before.is_member_id(x) {
                shared(before.leaving_map(), set![member_with_id(before, x)], src, id)
            } else {
                before.leaving_map()
            }
        },
        Msg::JoinShare(m) => {
            &&& after.leaving_members == before.leaving_members
            &&& after.joining_map() == if before.seen(m.id) {
                before.joining_map()
            } else {
                shared(before.joining_map(), set![m], src, id)
            }
        },
    }
}

/// Some pending join or leave of `s` holds a quorum of `elders`.
pub open spec fn commit_changes(s: StableSet, elders: Seq<Id>) -> bool {
    ready(s.joining_map(), elders) != Set::<Member>::empty() || ready(s.leaving_map(), elders)
        != Set::<Member>::empty()
}

/// `after` is `before` once every pending join and leave holding a quorum of
/// `elders` is committed.
pub open spec fn commit_step(before: StableSet, after: StableSet, elders: Seq<Id>) -> bool {
    &&& after.wf()
    &&& after.member_set() == before.promoted(elders)
    &&& after.dead_set() == before.dead_set().union(before.left_ids(elders))
    &&& after.joining_map() == before.joining_map().remove_keys(ready(before.joining_map(), elders))
    &&& after.leaving_map() == before.leaving_map().remove_keys(ready(before.leaving_map(), elders))
}

/// Members that a merge of `incoming` takes as join shares: every member or
/// candidate it lists whose id `local` has not seen.
pub open spec fn join_picks(local: StableSet, incoming: StableSet) -> Set<Member> {
    incoming.member_set().union(incoming.joining_map().dom()).filter(|m: Member| !local.seen(m.id))
}

/// Members that a merge of `incoming` takes as leave shares: every leaving member
/// it lists whose id has not left.
pub open spec fn leave_picks(local: StableSet, incoming: StableSet) -> Set<Member> {
    incoming.leaving_map().dom().filter(|m: Member| !local.dead@.contains(m.id))
}

/// The leave tally once the leave shares of `incoming` are taken.
pub open spec fn leaves_taken(local: StableSet, incoming: StableSet, id: Id, src: Id) -> Map<
    Member,
    Set<Id>,
> {
    shared(local.leaving_map(), leave_picks(local, incoming), src, id)
}

/// Members leaving here that `incoming` no longer lists as members.
pub open spec fn leave_backfill(local: StableSet, incoming: StableSet, id: Id, src: Id) -> Set<
    Member,
> {
    leaves_taken(local, incoming, id, src).dom().filter(
        |m: Member| !incoming.member_set().contains(m) && !local.dead@.contains(m.id),
    )
}

} // verus!
