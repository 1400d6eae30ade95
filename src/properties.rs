//! Properties of a whole section, read off the states of its nodes; node `i` is
//! the `i`-th state.
use vstd::prelude::*;

use crate::fake_crypto::{is_majority, majority};
use crate::ledger::{count_committing, tx_eq, DbcId, DbcIdV, Tx, TxV, GENESIS_AMOUNT};
use crate::membership::elders_of;
use crate::node::State;
use crate::stable_set::Member;
use crate::Id;

verus! {

/// Each node's commitments, by node id.
pub open spec fn commits_of(states: Seq<State>) -> Map<Id, Map<DbcIdV, TxV>> {
    Map::new(|i: Id| (i as int) < states.len(), |i: Id| states[i as int].wallet.ledger.commit_map())
}

/// The elders as node `a` sees them.
pub open spec fn elders_seen(states: Seq<State>, a: int) -> Seq<Id> {
    elders_of(states[a].membership.stable_set.members@, states[a].membership.elder_count)
}

/// A strict majority of node `a`'s elders has committed `t` as the spender of `k`.
pub open spec fn quorum_spender(states: Seq<State>, a: int, k: DbcIdV, t: TxV) -> bool {
    is_majority(
        count_committing(elders_seen(states, a), commits_of(states), k, t) as int,
        elders_seen(states, a).len() as int,
    )
}

/// Some node's elders hold a strict majority that committed `t` as the spender of `k`.
pub open spec fn some_quorum(states: Seq<State>, k: DbcIdV, t: TxV) -> bool {
    exists|b: int| 0 <= b < states.len() && quorum_spender(states, b, k, t)
}

/// Node `i` is the first node that is not leaving.
pub open spec fn is_reference(states: Seq<State>, i: int) -> bool {
    &&& 0 <= i < states.len()
    &&& !states[i].is_leaving
    &&& forall|j: int| 0 <= j < i ==> (#[trigger] states[j]).is_leaving
}

pub open spec fn states_wf(states: Seq<State>) -> bool {
    forall|i: int| 0 <= i < states.len() ==> (#[trigger] states[i]).wf()
}

proof fn lemma_some_committer(elders: Seq<Id>, c: Map<Id, Map<DbcIdV, TxV>>, k: DbcIdV, t: TxV)
    requires
        count_committing(elders, c, k, t) > 0,
    ensures
        exists|j: int|
            0 <= j < elders.len() && c.contains_key(#[trigger] elders[j]) && c[elders[j]].contains_key(k)
                && c[elders[j]][k] == t,
    decreases elders.len(),
{
    if count_committing(elders.drop_last(), c, k, t) > 0 {
        lemma_some_committer(elders.drop_last(), c, k, t);
        let j = choose|j: int|
            0 <= j < elders.drop_last().len() && c.contains_key(#[trigger] elders.drop_last()[j])
                && c[elders.drop_last()[j]].contains_key(k) && c[elders.drop_last()[j]][k] == t;
        assert(elders[j] == elders.drop_last()[j]);
    } else {
        assert(elders[elders.len() - 1] == elders.last());
    }
}

/// How many of `elders` have committed `t` as the spender of `k`.
fn count_commits(states: &Vec<State>, elders: &Vec<Id>, k: &DbcId, t: &Tx) -> (r: usize)
    requires
        states_wf(states@),
    ensures
        r == count_committing(elders@, commits_of(states@), k@, t@),
{
    let ghost c = commits_of(states@);
    let mut n: usize = 0;
    let mut j: usize = 0;
    while j < elders.len()
        invariant
            states_wf(states@),
            c == commits_of(states@),
            j <= elders.len(),
            n <= j,
            n == count_committing(elders@.subrange(0, j as int), c, k@, t@),
        decreases elders.len() - j,
    {
        proof {
            assert(elders@.subrange(0, j + 1).drop_last() =~= elders@.subrange(0, j as int));
        }
        let e = elders[j];
        if (e as u128) < (states.len() as u128) {
            assert(c.contains_key(e));
            match states[e as usize].wallet.read_tx(k) {
                Some(x) => {
                    if tx_eq(&x, t) {
                        n = n + 1;
                    }
                },
                None => {},
            }
        }
        j = j + 1;
    }
    proof {
        assert(elders@.subrange(0, elders.len() as int) =~= elders@);
    }
    n
}

/// No two transactions spending `k` are each committed by a strict majority of
/// some node's elders.
pub fn no_double_spends(states: &Vec<State>, k: &DbcId) -> (r: bool)
    requires
        states_wf(states@),
    ensures
        r == forall|a: int, b: int, t1: TxV, t2: TxV|
            0 <= a < states.len() && 0 <= b < states.len() && quorum_spender(states@, a, k@, t1)
                && quorum_spender(states@, b, k@, t2) ==> t1 == t2,
{
    let ghost c = commits_of(states@);
    let mut found: Vec<Tx> = Vec::new();
    let mut a: usize = 0;
    while a < states.len()
        invariant
            states_wf(states@),
            c == commits_of(states@),
            a <= states.len(),
            forall|x: int| 0 <= x < found@.len() ==> some_quorum(states@, k@, (#[trigger] found@[x])@),
            forall|b: int, t: TxV|
                0 <= b < a && quorum_spender(states@, b, k@, t) ==> exists|x: int|
                    0 <= x < found@.len() && (#[trigger] found@[x])@ == t,
        decreases states.len() - a,
    {
        let elders = states[a].elders();
        assert(elders@ == elders_seen(states@, a as int));
        let mut j: usize = 0;
        while j < elders.len()
            invariant
                states_wf(states@),
                c == commits_of(states@),
                a < states.len(),
                elders@ == elders_seen(states@, a as int),
                j <= elders.len(),
                forall|x: int| 0 <= x < found@.len() ==> some_quorum(states@, k@, (#[trigger] found@[x])@),
                forall|b: int, t: TxV|
                    0 <= b < a && quorum_spender(states@, b, k@, t) ==> exists|x: int|
                        0 <= x < found@.len() && (#[trigger] found@[x])@ == t,
                forall|jj: int|
                    0 <= jj < j && c.contains_key(#[trigger] elders@[jj]) && c[elders@[jj]].contains_key(k@)
                        && quorum_spender(states@, a as int, k@, c[elders@[jj]][k@])
                        ==> exists|x: int| 0 <= x < found@.len() && (#[trigger] found@[x])@ == c[elders@[jj]][k@],
            decreases elders.len() - j,
        {
            let e = elders[j];
            if (e as u128) < (states.len() as u128) {
                assert(c.contains_key(e));
                match states[e as usize].wallet.read_tx(k) {
                    Some(t) => {
                        let n = count_commits(states, &elders, k, &t);
                        if majority(n, elders.len()) {
                            let ghost f0 = found@;
                            found.push(t);
                            proof {
                                assert forall|x: int| 0 <= x < found@.len() implies some_quorum(states@, k@, (#[trigger] found@[x])@) by {
                                    if x < f0.len() {
                                        assert(found@[x] == f0[x]);
                                    } else {
                                        assert(quorum_spender(states@, a as int, k@, found@[x]@));
                                    }
                                }
                                assert forall|b: int, t2: TxV|
                                    0 <= b < a && quorum_spender(states@, b, k@, t2) implies exists|x: int|
                                        0 <= x < found@.len() && (#[trigger] found@[x])@ == t2 by {
                                    let x = choose|x: int| 0 <= x < f0.len() && (#[trigger] f0[x])@ == t2;
                                    assert(found@[x] == f0[x]);
                                }
                                assert forall|jj: int|
                                    0 <= jj < j + 1 && c.contains_key(#[trigger] elders@[jj]) && c[elders@[jj]].contains_key(k@)
                                        && quorum_spender(states@, a as int, k@, c[elders@[jj]][k@])
                                        implies exists|x: int| 0 <= x < found@.len() && (#[trigger] found@[x])@ == c[elders@[jj]][k@] by {
                                    let t2 = c[elders@[jj]][k@];
                                    if jj < j {
                                        let x = choose|x: int| 0 <= x < f0.len() && (#[trigger] f0[x])@ == t2;
                                        assert(found@[x] == f0[x]);
                                    } else {
                                        assert(found@[f0.len() as int]@ == t2);
                                    }
                                }
                            }
                        }
                    },
                    None => {},
                }
            }
            j = j + 1;
        }
        proof {
            assert forall|b: int, t: TxV|
                0 <= b < a + 1 && quorum_spender(states@, b, k@, t) implies exists|x: int|
                    0 <= x < found@.len() && (#[trigger] found@[x])@ == t by {
                if b == a {
                    assert(count_committing(elders@, c, k@, t) > 0);
                    lemma_some_committer(elders@, c, k@, t);
                    let jj = choose|jj: int|
                        0 <= jj < elders@.len() && c.contains_key(#[trigger] elders@[jj]) && c[elders@[jj]].contains_key(k@)
                            && c[elders@[jj]][k@] == t;
                    assert(c[elders@[jj]][k@] == t);
                }
            }
        }
        a = a + 1;
    }
    let mut i: usize = 1;
    while i < found.len()
        invariant
            1 <= i,
            forall|x: int| 0 <= x < found@.len() ==> some_quorum(states@, k@, (#[trigger] found@[x])@),
            forall|x: int| 1 <= x < i && x < found@.len() ==> (#[trigger] found@[x])@ == found@[0]@,
        decreases found.len() - i,
    {
        if !tx_eq(&found[i], &found[0]) {
            proof {
                assert(some_quorum(states@, k@, found@[i as int]@));
                assert(some_quorum(states@, k@, found@[0]@));
            }
            return false;
        }
        i = i + 1;
    }
    proof {
        assert forall|a1: int, b: int, t1: TxV, t2: TxV|
            0 <= a1 < states.len() && 0 <= b < states.len() && quorum_spender(states@, a1, k@, t1)
                && quorum_spender(states@, b, k@, t2) implies t1 == t2 by {
            let x1 = choose|x: int| 0 <= x < found@.len() && (#[trigger] found@[x])@ == t1;
            let x2 = choose|x: int| 0 <= x < found@.len() && (#[trigger] found@[x])@ == t2;
            if x1 > 0 {
                assert(found@[x1]@ == found@[0]@);
            }
            if x2 > 0 {
                assert(found@[x2]@ == found@[0]@);
            }
        }
    }
    true
}

/// The first node that is not leaving, where there is one.
pub fn reference_index(states: &Vec<State>) -> (r: Option<usize>)
    ensures
        match r {
            Some(i) => is_reference(states@, i as int),
            None => forall|j: int| 0 <= j < states.len() ==> (#[trigger] states@[j]).is_leaving,
        },
{
    let mut i: usize = 0;
    while i < states.len()
        invariant
            i <= states.len(),
            forall|j: int| 0 <= j < i ==> (#[trigger] states@[j]).is_leaving,
        decreases states.len() - i,
    {
        if !states[i].is_leaving {
            return Some(i);
        }
        i = i + 1;
    }
    None
}

fn same_members(a: &Vec<Member>, b: &Vec<Member>) -> (r: bool)
    ensures
        r == (a@ == b@),
{
    if a.len() != b.len() {
        return false;
    }
    let mut i: usize = 0;
    while i < a.len()
        invariant
            i <= a.len(),
            a.len() == b.len(),
            forall|j: int| 0 <= j < i ==> a@[j] == b@[j],
        decreases a.len() - i,
    {
        if a[i] != b[i] {
            return false;
        }
        i = i + 1;
    }
    proof {
        assert(a@ =~= b@);
    }
    true
}

/// Every node that is not leaving holds the roster of the first such node.
pub fn stable_set_converged(states: &Vec<State>) -> (r: bool)
    ensures
        r == forall|i: int, j: int| #![trigger is_reference(states@, i), states@[j]]
            is_reference(states@, i) && 0 <= j < states.len() && !states@[j].is_leaving
                ==> states@[j].membership.stable_set.members@ == states@[i].membership.stable_set.members@,
{
    match reference_index(states) {
        None => true,
        Some(i) => {
            let mut j: usize = 0;
            while j < states.len()
                invariant
                    is_reference(states@, i as int),
                    j <= states.len(),
                    forall|jj: int|
                        0 <= jj < j && !(#[trigger] states@[jj]).is_leaving ==> states@[jj].membership.stable_set.members@
                            == states@[i as int].membership.stable_set.members@,
                decreases states.len() - j,
            {
                if !states[j].is_leaving && !same_members(
                    &states[j].membership.stable_set.members,
                    &states[i].membership.stable_set.members,
                ) {
                    return false;
                }
                j = j + 1;
            }
            proof {
                assert forall|i2: int, j2: int| #![trigger is_reference(states@, i2), states@[j2]]
                    is_reference(states@, i2) && 0 <= j2 < states.len() && !states@[j2].is_leaving
                        implies states@[j2].membership.stable_set.members@
                        == states@[i2].membership.stable_set.members@ by {
                    if i2 < i {
                        assert(states@[i2].is_leaving);
                    } else if i < i2 {
                        assert(states@[i as int].is_leaving);
                    }
                }
            }
            true
        },
    }
}

/// Every node that is not leaving is a member in the roster of the first such node.
pub fn all_nodes_joined_who_havent_left(states: &Vec<State>) -> (r: bool)
    ensures
        r == forall|i: int, j: int| #![trigger is_reference(states@, i), states@[j]]
            is_reference(states@, i) && 0 <= j < states.len() && !states@[j].is_leaving
                ==> states@[i].membership.stable_set.is_member_id(j as Id),
{
    match reference_index(states) {
        None => true,
        Some(i) => {
            let mut j: usize = 0;
            while j < states.len()
                invariant
                    is_reference(states@, i as int),
                    j <= states.len(),
                    forall|jj: int|
                        0 <= jj < j && !(#[trigger] states@[jj]).is_leaving ==> states@[i as int].membership.stable_set.is_member_id(
                            jj as Id,
                        ),
                decreases states.len() - j,
            {
                if !states[j].is_leaving && !states[i].membership.stable_set.contains(j as Id) {
                    return false;
                }
                j = j + 1;
            }
            proof {
                assert forall|i2: int, j2: int| #![trigger is_reference(states@, i2), states@[j2]]
                    is_reference(states@, i2) && 0 <= j2 < states.len() && !states@[j2].is_leaving
                        implies states@[i2].membership.stable_set.is_member_id(j2 as Id) by {
                    if i2 < i {
                        assert(states@[i2].is_leaving);
                    } else if i < i2 {
                        assert(states@[i as int].is_leaving);
                    }
                }
            }
            true
        },
    }
}

/// No node that is leaving is a member in the roster of the first node that is not.
pub fn all_nodes_who_are_leaving_eventually_left(states: &Vec<State>) -> (r: bool)
    ensures
        r == forall|i: int, j: int| #![trigger is_reference(states@, i), states@[j]]
            is_reference(states@, i) && 0 <= j < states.len() && states@[j].is_leaving
                ==> !states@[i].membership.stable_set.is_member_id(j as Id),
{
    match reference_index(states) {
        None => true,
        Some(i) => {
            let mut j: usize = 0;
            while j < states.len()
                invariant
                    is_reference(states@, i as int),
                    j <= states.len(),
                    forall|jj: int|
                        0 <= jj < j && (#[trigger] states@[jj]).is_leaving ==> !states@[i as int].membership.stable_set.is_member_id(
                            jj as Id,
                        ),
                decreases states.len() - j,
            {
                if states[j].is_leaving && states[i].membership.stable_set.contains(j as Id) {
                    return false;
                }
                j = j + 1;
            }
            proof {
                assert forall|i2: int, j2: int| #![trigger is_reference(states@, i2), states@[j2]]
                    is_reference(states@, i2) && 0 <= j2 < states.len() && states@[j2].is_leaving
                        implies !states@[i2].membership.stable_set.is_member_id(j2 as Id) by {
                    if i2 < i {
                        assert(states@[i2].is_leaving);
                    } else if i < i2 {
                        assert(states@[i as int].is_leaving);
                    }
                }
            }
            true
        },
    }
}

/// Every node's ledger holds exactly the genesis amount unspent.
pub fn unspent_outputs_equals_genesis_amount(states: &Vec<State>) -> (r: bool)
    requires
        states_wf(states@),
    ensures
        r == forall|i: int|
            0 <= i < states.len() ==> (#[trigger] states@[i]).wallet.ledger.unspent_total() == GENESIS_AMOUNT,
{
    let mut i: usize = 0;
    while i < states.len()
        invariant
            states_wf(states@),
            i <= states.len(),
            forall|j: int| 0 <= j < i ==> (#[trigger] states@[j]).wallet.ledger.unspent_total() == GENESIS_AMOUNT,
        decreases states.len() - i,
    {
        match states[i].wallet.ledger.sum_unspent_outputs() {
            Some(v) => {
                if v != GENESIS_AMOUNT {
                    return false;
                }
            },
            None => {
                return false;
            },
        }
        i = i + 1;
    }
    true
}

} // verus!
