use vstd::prelude::*;

use crate::assoc::{contains_id, insert_id};
use crate::ledger::{self, genesis_dbc, without_id, Dbc, Wallet, GENESIS_AMOUNT};
use crate::ledger::{ids_but, spend_step, spends_consistent, valid_tx};
use crate::membership::{
    self, commit_changes, commit_step, elders_of, leave_step, merge_fresh, merge_step,
    request_fresh, request_step, Elders, Membership,
};
use crate::stable_set::{Member, StableSet};
use crate::Id;

verus! {

/// What a message asks of its receiver.
#[derive(Debug, PartialEq, Eq, PartialOrd, Ord, Hash)]
pub enum Action {
    Membership(membership::Msg),
    Wallet(ledger::Msg),
    /// Nothing beyond the stable set the message carries.
    Sync,
    /// Local trigger: spend the genesis DBC.
    StartReissue,
    /// Local trigger: ask the section to let this node leave.
    TriggerLeave,
}

impl Clone for Action {
    fn clone(&self) -> Self {
        match self {
            Action::Membership(m) => Action::Membership(*m),
            Action::Wallet(m) => Action::Wallet(m.clone()),
            Action::Sync => Action::Sync,
            Action::StartReissue => Action::StartReissue,
            Action::TriggerLeave => Action::TriggerLeave,
        }
    }
}

/// A message between nodes: the sender's stable set and an action.
#[derive(Clone, Debug, PartialEq, Eq, PartialOrd, Ord, Hash)]
pub struct Msg {
    pub stable_set: StableSet,
    pub action: Action,
}

/// `wire` is `s` as it travels: the same roster and departed ids, the same
/// pending members, and no witnesses.
pub open spec fn is_wire_copy(wire: StableSet, s: StableSet) -> bool {
    &&& wire.wf()
    &&& wire.members@ == s.members@
    &&& wire.dead@ == s.dead@
    &&& wire.joining_map().dom() == s.joining_map().dom()
    &&& wire.leaving_map().dom() == s.leaving_map().dom()
    &&& forall|m: Member| #[trigger]
        wire.joining_map().contains_key(m) ==> wire.joining_map()[m] == Set::<Id>::empty()
    &&& forall|m: Member| #[trigger]
        wire.leaving_map().contains_key(m) ==> wire.leaving_map()[m] == Set::<Id>::empty()
}

/// A message carrying the sender's stable set, stripped of witnesses.
pub fn build_msg(membership: &Membership, action: Action) -> (r: Msg)
    requires
        membership.wf(),
    ensures
        is_wire_copy(r.stable_set, membership.stable_set),
        r.action == action,
{
    Msg { stable_set: membership.stable_set.without_witnesses(), action }
}

/// What a node hands to the network after a step.
#[derive(Debug, PartialEq, Eq, Hash)]
pub enum Command {
    /// One message to one node.
    Send(Id, Msg),
    /// One message to each of the listed nodes.
    Broadcast(Vec<Id>, Msg),
}

/// The state of one node.
#[derive(Clone, Debug, PartialEq, Eq, Hash)]
pub struct State {
    pub membership: Membership,
    /// This node has started to leave.
    pub is_leaving: bool,
    pub wallet: Wallet,
}

/// A node of the section and what it knows at start.
#[derive(Clone, Debug)]
pub struct Node {
    pub genesis_nodes: Vec<Id>,
    pub peers: Vec<Id>,
    /// How many members, first in roster order, are elders.
    pub elder_count: usize,
}

/// The node's own id lies in the top third of the section, where it leaves on its own.
pub open spec fn in_leaving_third(id: Id, peer_count: nat) -> bool {
    id > (peer_count * 2) / 3
}

/// Adds each id of `more` to the list read as a set.
fn extend_ids(ids: &mut Vec<Id>, more: &Vec<Id>)
    requires
        old(ids)@.no_duplicates(),
    ensures
        final(ids)@.no_duplicates(),
        final(ids)@.to_set() == old(ids)@.to_set().union(more@.to_set()),
{
    let ghost start = ids@.to_set();
    let mut i: usize = 0;
    while i < more.len()
        invariant
            i <= more.len(),
            ids@.no_duplicates(),
            ids@.to_set() == start.union(more@.subrange(0, i as int).to_set()),
        decreases more.len() - i,
    {
        insert_id(ids, more[i]);
        proof {
            let q0 = more@.subrange(0, i as int);
            let q1 = more@.subrange(0, i + 1);
            assert forall|x: Id| #[trigger] q1.to_set().contains(x) == q0.to_set().insert(more@[i as int]).contains(x) by {
                if q1.contains(x) {
                    let k = choose|k: int| 0 <= k < q1.len() && q1[k] == x;
                    if k < i {
                        assert(q0[k] == x);
                    }
                }
                if q0.contains(x) {
                    let k = choose|k: int| 0 <= k < q0.len() && q0[k] == x;
                    assert(q1[k] == x);
                }
                if x == more@[i as int] {
                    assert(q1[i as int] == x);
                }
            }
            assert(ids@.to_set() =~= start.union(q1.to_set()));
        }
        i = i + 1;
    }
    proof {
        assert(more@.subrange(0, more.len() as int) =~= more@);
    }
}

/// `after` is the state of node `id` once it has handled `msg` from `src`: its
/// stable set is `merged` after the merge and `acted` after the action, and then what
/// holds a quorum is committed. Elders are judged as they stood before the message.
pub open spec fn node_step(
    before: State,
    after: State,
    merged: StableSet,
    acted: StableSet,
    peer_count: nat,
    id: Id,
    src: Id,
    msg: Msg,
) -> bool {
    let k = before.membership.elder_count;
    let elders = elders_of(before.membership.stable_set.members@, k);
    &&& merge_step(before.membership.stable_set, merged, msg.stable_set, id, src)
    &&& match msg.action {
        Action::Membership(m) => request_step(merged, acted, elders, id, src, m) && after.wallet
            == before.wallet,
        Action::TriggerLeave => leave_step(merged, acted, id) && after.wallet == before.wallet,
        Action::Wallet(m) => acted == merged && spend_step(
            before.wallet.ledger,
            after.wallet.ledger,
            elders,
            m@,
            src,
            id,
        ),
        _ => acted == merged && after.wallet == before.wallet,
    }
    &&& after.is_leaving == (before.is_leaving || (in_leaving_third(id, peer_count)
        && acted.is_member_id(id)))
    &&& commit_step(acted, after.membership.stable_set, elders_of(acted.members@, k))
}

impl State {
    pub open spec fn wf(&self) -> bool {
        self.membership.wf() && self.wallet.wf()
    }

    pub fn elders(&self) -> (r: Elders)
        ensures
            r@ == elders_of(self.membership.stable_set.members@, self.membership.elder_count),
    {
        self.membership.elders()
    }

    pub fn build_msg(&self, action: Action) -> (r: Msg)
        requires
            self.wf(),
        ensures
            is_wire_copy(r.stable_set, self.membership.stable_set),
            r.action == action,
    {
        build_msg(&self.membership, action)
    }
}

impl Node {
    /// The state of node `id` at start, and what it sends: a join request to the
    /// genesis nodes where it is not one of them, and a trigger to itself to spend.
    pub fn on_start(&self, id: Id) -> (r: (State, Vec<Command>))
        requires
            self.genesis_nodes@.no_duplicates(),
        ensures
            r.0.wf(),
            !r.0.is_leaving,
            r.0.membership.stable_set.member_set() == self.genesis_nodes@.to_set().map(
                |g: Id| crate::stable_set::Member { ord_idx: 0, id: g },
            ),
            r.0.membership.stable_set.dead@.len() == 0,
            r.0.membership.elder_count == self.elder_count,
            r.0.membership.stable_set.joining_map() == Map::<crate::stable_set::Member, Set<Id>>::empty(),
            r.0.membership.stable_set.leaving_map() == Map::<crate::stable_set::Member, Set<Id>>::empty(),
            r.0.wallet.ledger.commit_map().is_empty(),
            r.0.wallet.ledger.pending_map().is_empty(),
            spends_consistent(r.0.wallet.ledger.commit_map(), r.0.wallet.ledger.pending_map()),
            r.0.wallet.ledger.unspent_total() == GENESIS_AMOUNT,
            r.1@.len() == if self.genesis_nodes@.contains(id) { 1int } else { 2int },
            !self.genesis_nodes@.contains(id) ==> (r.1@[0] matches Command::Broadcast(to, m) && to@
                == self.genesis_nodes@ && m.action == Action::Membership(membership::Msg::ReqJoin(id))
                && is_wire_copy(m.stable_set, r.0.membership.stable_set)),
            (r.1@.last() matches Command::Send(to, m) && to == id && m.action == Action::StartReissue
                && is_wire_copy(m.stable_set, r.0.membership.stable_set)),
    {
        let membership = Membership::new(&self.genesis_nodes, self.elder_count);
        let wallet = Wallet::new(&self.genesis_nodes);
        let state = State { membership, wallet, is_leaving: false };
        let mut out: Vec<Command> = Vec::new();
        if !contains_id(&self.genesis_nodes, id) {
            let to = self.genesis_nodes.clone();
            proof {
                assert(to@ =~= self.genesis_nodes@);
            }
            out.push(Command::Broadcast(to, state.membership.req_join(id)));
        }
        out.push(Command::Send(id, state.build_msg(Action::StartReissue)));
        proof {
            assert(state.wallet.ledger.commit_map() =~= Map::empty());
            assert(state.wallet.ledger.pending_map() =~= Map::empty());
        }
        (state, out)
    }

    /// Node `id` takes in a message from `src`: merges the stable set it carries,
    /// acts on it, leaves on its own where its id is in the top third, commits what
    /// is ready, and syncs every node it found behind, and every other peer where
    /// it is an elder and the roster changed.
    pub fn on_msg(&self, id: Id, state: &mut State, src: Id, msg: Msg) -> (r: Vec<Command>)
        requires
            old(state).wf(),
        ensures
            final(state).wf(),
            old(state).membership.stable_set.dead_set().subset_of(
                final(state).membership.stable_set.dead_set(),
            ),
            final(state).membership.elder_count == old(state).membership.elder_count,
            spends_consistent(
                old(state).wallet.ledger.commit_map(),
                old(state).wallet.ledger.pending_map(),
            ) ==> spends_consistent(
                final(state).wallet.ledger.commit_map(),
                final(state).wallet.ledger.pending_map(),
            ),
            exists|merged: StableSet, acted: StableSet, answer: Seq<Command>|
                {
                    &&& node_step(*old(state), *final(state), merged, acted, self.peers@.len(), id, src, msg)
                    &&& answers_action(*old(state), merged, acted, self.peers@.len(), id, msg, answer)
                    &&& node_sends(*old(state), *final(state), merged, acted, self.peers@, id, src, msg, answer, r@)
                },
    {
        let elders = state.elders();
        let ghost msg_copy = msg;
        let Msg { stable_set, action } = msg;
        let mut out: Vec<Command> = Vec::new();
        let mut nodes_to_sync = state.membership.merge(stable_set, id, src);
        let ghost merged = state.membership.stable_set;
        let ghost k = state.membership.elder_count;
        match action {
            Action::Sync => {},
            Action::Membership(m) => {
                let more = state.membership.on_msg(&elders, id, src, m);
                extend_ids(&mut nodes_to_sync, &more);
            },
            Action::Wallet(m) => {
                if let Some((to, fwd)) = state.wallet.on_msg(&state.membership, id, src, m) {
                    out.push(Command::Broadcast(to, fwd));
                }
            },
            Action::StartReissue => {
                // The node spends the genesis DBC into its own id's worth and the
                // rest, where its id names a peer and stays within the genesis amount.
                if (id as u128) < (self.peers.len() as u128) && id <= GENESIS_AMOUNT {
                    let input = genesis_dbc();
                    let mut inputs: Vec<Dbc> = Vec::new();
                    inputs.push(input);
                    let mut outputs: Vec<u64> = Vec::new();
                    outputs.push(id);
                    outputs.push(GENESIS_AMOUNT - id);
                    proof {
                        crate::ledger::lemma_dbcs_view(inputs@);
                        assert(crate::ledger::dbcs_view(inputs@) =~= seq![crate::ledger::genesis_spec()]);
                        assert(outputs@ =~= seq![id, (GENESIS_AMOUNT - id) as u64]);
                    }
                    let (to, req) = state.wallet.reissue(&state.membership, inputs, outputs);
                    out.push(Command::Broadcast(to, req));
                }
            },
            Action::TriggerLeave => {
                let req = state.membership.req_leave(id);
                let to = elders;
                out.push(Command::Broadcast(to, req));
            },
        }
        let ghost acted = state.membership.stable_set;
        let ghost answer = out@;
        let ghost after_action = nodes_to_sync@.to_set();
        let third: u128 = (self.peers.len() as u128) * 2 / 3;
        if (id as u128) > third && state.membership.is_member(id) && !state.is_leaving {
            state.is_leaving = true;
            out.push(Command::Send(id, state.build_msg(Action::TriggerLeave)));
        }
        let elders_now = state.elders();
        let changed = state.membership.stable_set.process_ready_actions(&elders_now);
        if changed && contains_id(&elders_now, id) {
            extend_ids(&mut nodes_to_sync, &self.peers);
        } else {
            proof {
                assert(nodes_to_sync@.to_set() =~= after_action.union(Set::<Id>::empty()));
            }
        }
        proof {
            assert(node_step(*old(state), *state, merged, acted, self.peers@.len(), id, src, msg_copy));
            assert(answers_action(*old(state), merged, acted, self.peers@.len(), id, msg_copy, answer));
        }
        let to = without_id(&nodes_to_sync, id);
        proof {
            lemma_ids_but_keeps(nodes_to_sync@, id);
        }
        let ghost before_sync = out@;
        out.push(Command::Broadcast(to, state.build_msg(Action::Sync)));
        proof {
            let sm = old(state).membership.stable_set;
            let el = elders_of(sm.members@, k);
            assert(after_action == merge_fresh(sm, msg_copy.stable_set, id, src).union(
                match msg_copy.action {
                    Action::Membership(m) => request_fresh(merged, el, id, m).to_set(),
                    _ => Set::<Id>::empty(),
                },
            ));
            assert(nodes_to_sync@.to_set() == sync_targets(*old(state), merged, acted, self.peers@, id, src, msg_copy));
            assert(out@.subrange(0, answer.len() as int) =~= answer) by {
                assert(before_sync.subrange(0, answer.len() as int) =~= answer);
            }
            assert(node_sends(*old(state), *state, merged, acted, self.peers@, id, src, msg_copy, answer, out@));
        }
        out
    }
}

/// The spend a node makes of the genesis DBC when told to: its own id's worth and the rest.
pub open spec fn reissue_of(id: Id) -> ledger::TxV {
    ledger::TxV {
        inputs: seq![ledger::genesis_spec()],
        outputs: seq![id, (GENESIS_AMOUNT - id) as u64],
    }
}

/// `answer` is what node `id` sends in reply to the action of `msg`: a valid new
/// spend goes on to the other elders, a spend trigger goes to the elders as a
/// request, and a leave trigger goes to the elders as this node's leave request.
/// The elders are those before the message.
pub open spec fn answers_action(
    before: State,
    merged: StableSet,
    acted: StableSet,
    peer_count: nat,
    id: Id,
    msg: Msg,
    answer: Seq<Command>,
) -> bool {
    let elders = elders_of(before.membership.stable_set.members@, before.membership.elder_count);
    match msg.action {
        Action::Wallet(m) => if valid_tx(
            before.wallet.ledger.commit_map(),
            before.wallet.ledger.pending_map(),
            m@,
        ) && !before.wallet.ledger.pending_map().contains_key(m@) {
            &&& answer.len() == 1
            &&& answer[0] matches Command::Broadcast(to, out) && to@ == ids_but(elders, id)
                && is_wire_copy(out.stable_set, merged) && (out.action matches Action::Wallet(w)
                && w@ == m@)
        } else {
            answer.len() == 0
        },
        Action::StartReissue => if id < peer_count && id <= GENESIS_AMOUNT {
            &&& answer.len() == 1
            &&& answer[0] matches Command::Broadcast(to, out) && to@ == elders && is_wire_copy(
                out.stable_set,
                merged,
            ) && (out.action matches Action::Wallet(w) && w@ == reissue_of(id))
        } else {
            answer.len() == 0
        },
        Action::TriggerLeave => {
            &&& answer.len() == 1
            &&& answer[0] matches Command::Broadcast(to, out) && to@ == elders && is_wire_copy(
                out.stable_set,
                acted,
            ) && out.action == Action::Membership(membership::Msg::ReqLeave(id))
        },
        _ => answer.len() == 0,
    }
}

/// The ids node `id` syncs after handling `msg`, itself included: those the merge
/// and the action met for the first time, and every peer where this node is an
/// elder and the commit changed the roster.
pub open spec fn sync_targets(
    before: State,
    merged: StableSet,
    acted: StableSet,
    peers: Seq<Id>,
    id: Id,
    src: Id,
    msg: Msg,
) -> Set<Id> {
    let k = before.membership.elder_count;
    let elders = elders_of(before.membership.stable_set.members@, k);
    let now = elders_of(acted.members@, k);
    merge_fresh(before.membership.stable_set, msg.stable_set, id, src).union(
        match msg.action {
            Action::Membership(m) => request_fresh(merged, elders, id, m).to_set(),
            _ => Set::<Id>::empty(),
        },
    ).union(
        if commit_changes(acted, now) && now.contains(id) {
            peers.to_set()
        } else {
            Set::<Id>::empty()
        },
    )
}

/// `sent` is what node `id` sends after handling `msg`: the answer to the action,
/// then its own leave trigger where it started to leave, then a Sync to every
/// target but itself.
pub open spec fn node_sends(
    before: State,
    after: State,
    merged: StableSet,
    acted: StableSet,
    peers: Seq<Id>,
    id: Id,
    src: Id,
    msg: Msg,
    answer: Seq<Command>,
    sent: Seq<Command>,
) -> bool {
    let starts_leaving = !before.is_leaving && after.is_leaving;
    &&& sent.len() == answer.len() + if starts_leaving { 2int } else { 1int }
    &&& sent.subrange(0, answer.len() as int) == answer
    &&& starts_leaving ==> (sent[answer.len() as int] matches Command::Send(to, m) && to == id
        && m.action == Action::TriggerLeave && is_wire_copy(m.stable_set, acted))
    &&& sent.last() matches Command::Broadcast(to, m) && to@.no_duplicates() && to@.to_set()
        == sync_targets(before, merged, acted, peers, id, src, msg).remove(id) && m.action
        == Action::Sync && is_wire_copy(m.stable_set, after.membership.stable_set)
}

/// Leaving out one id keeps a list free of repeats and drops that id.
proof fn lemma_ids_but_keeps(s: Seq<Id>, id: Id)
    requires
        s.no_duplicates(),
    ensures
        crate::ledger::ids_but(s, id).no_duplicates(),
        !crate::ledger::ids_but(s, id).contains(id),
        forall|x: Id| #[trigger] crate::ledger::ids_but(s, id).contains(x) ==> s.contains(x),
        crate::ledger::ids_but(s, id).to_set() == s.to_set().remove(id),
    decreases s.len(),
{
    if s.len() > 0 {
        let t = s.drop_last();
        assert(t.no_duplicates());
        lemma_ids_but_keeps(t, id);
        let r0 = crate::ledger::ids_but(t, id);
        let r = crate::ledger::ids_but(s, id);
        if s.last() != id {
            assert(r == r0.push(s.last()));
            assert forall|x: Id| #[trigger] r.contains(x) implies s.contains(x) by {
                let k = choose|k: int| 0 <= k < r.len() && r[k] == x;
                if k < r0.len() {
                    assert(r0[k] == x);
                    assert(r0.contains(x));
                    assert(t.contains(x));
                    let j = choose|j: int| 0 <= j < t.len() && t[j] == x;
                    assert(s[j] == x);
                } else {
                    assert(s[s.len() - 1] == x);
                }
            }
            assert(!r0.contains(s.last())) by {
                if r0.contains(s.last()) {
                    assert(t.contains(s.last()));
                    let j = choose|j: int| 0 <= j < t.len() && t[j] == s.last();
                    assert(s[j] == s[s.len() - 1]);
                }
            }
            assert forall|a: int, b: int| 0 <= a < r.len() && 0 <= b < r.len() && a != b implies r[a] != r[b] by {
                if a < r0.len() && b < r0.len() {
                    assert(r0[a] != r0[b]);
                } else if a < r0.len() {
                    assert(r0.contains(r0[a]));
                } else {
                    assert(r0.contains(r0[b]));
                }
            }
            assert(!r.contains(id)) by {
                if r.contains(id) {
                    let k = choose|k: int| 0 <= k < r.len() && r[k] == id;
                    if k < r0.len() {
                        assert(r0[k] == id);
                    }
                }
            }
        } else {
            assert forall|x: Id| #[trigger] r.contains(x) implies s.contains(x) by {
                assert(t.contains(x));
                let j = choose|j: int| 0 <= j < t.len() && t[j] == x;
                assert(s[j] == x);
            }
        }
        assert forall|x: Id| #[trigger] r.to_set().contains(x) == s.to_set().remove(id).contains(x) by {
            if s.contains(x) && x != id {
                let j = choose|j: int| 0 <= j < s.len() && s[j] == x;
                if j == s.len() - 1 {
                    assert(r[r.len() - 1] == x);
                } else {
                    assert(t[j] == x);
                    assert(t.to_set().remove(id).contains(x));
                    assert(r0.to_set().contains(x));
                    let k = choose|k: int| 0 <= k < r0.len() && r0[k] == x;
                    if s.last() != id {
                        assert(r[k] == x);
                    }
                }
            }
            if r.contains(x) {
                assert(x != id);
            }
        }
        assert(r.to_set() =~= s.to_set().remove(id));
    } else {
        assert(crate::ledger::ids_but(s, id).to_set() =~= s.to_set().remove(id));
    }
}

} // verus!
